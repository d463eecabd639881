use hoice::candidates::{ConjCandidates, Frag};

fn merged(known: Vec<bool>, partial: Vec<(usize, Frag)>) -> ConjCandidates {
    let mut m = ConjCandidates::new(known.len());
    m.merge(&known, &partial);
    m
}

#[test]
fn merge_appends_new_fragments() {
    let m = merged(vec![false, false], vec![(0, Frag::Term(7)), (0, Frag::Term(8)), (1, Frag::Term(7))]);
    assert_eq!(m.get(0), Some(vec![Frag::Term(7), Frag::Term(8)]));
    assert_eq!(m.get(1), Some(vec![Frag::Term(7)]));
}

#[test]
fn merge_skips_duplicates() {
    let m = merged(vec![false], vec![(0, Frag::Term(3)), (0, Frag::Term(3)), (0, Frag::Term(4)), (0, Frag::Term(3))]);
    assert_eq!(m.get(0), Some(vec![Frag::Term(3), Frag::Term(4)]));
}

#[test]
fn merge_true_is_a_no_op_but_creates_entry() {
    let m = merged(vec![false, false], vec![(0, Frag::Lit(true))]);
    assert_eq!(m.get(0), Some(vec![]));
    assert_eq!(m.get(1), None);
}

#[test]
fn merge_false_clears_entry() {
    let m = merged(vec![false], vec![(0, Frag::Term(1)), (0, Frag::Term(2)), (0, Frag::Lit(false))]);
    assert_eq!(m.get(0), Some(vec![Frag::Lit(false)]));
}

#[test]
fn merge_after_false_keeps_false_alone() {
    let m = merged(vec![false], vec![(0, Frag::Lit(false)), (0, Frag::Term(5)), (0, Frag::Lit(false)), (0, Frag::Lit(true))]);
    assert_eq!(m.get(0), Some(vec![Frag::Lit(false)]));
}

#[test]
fn merge_skips_known_predicates() {
    let m = merged(vec![true, false], vec![(0, Frag::Term(1)), (1, Frag::Term(2))]);
    assert_eq!(m.get(0), None);
    assert_eq!(m.get(1), Some(vec![Frag::Term(2)]));
    assert_eq!(m.len(), 2);
}

#[test]
fn merge_sequence_keeps_entries_clean() {
    let known = vec![false, false, false];
    let mut m = ConjCandidates::new(3);
    let rounds = vec![
        vec![(0, Frag::Term(1)), (1, Frag::Lit(false)), (2, Frag::Term(9))],
        vec![(0, Frag::Term(1)), (1, Frag::Term(4)), (2, Frag::Term(9)), (0, Frag::Term(2))],
        vec![(2, Frag::Lit(false)), (0, Frag::Lit(true)), (2, Frag::Term(3))],
    ];
    for r in &rounds {
        m.merge(&known, r);
    }
    for p in 0..3 {
        let e = m.get(p).unwrap();
        for i in 0..e.len() {
            for j in 0..e.len() {
                if i != j {
                    assert_ne!(e[i], e[j]);
                }
            }
        }
        if e.contains(&Frag::Lit(false)) {
            assert_eq!(e.len(), 1);
        }
    }
    assert_eq!(m.get(0), Some(vec![Frag::Term(1), Frag::Term(2)]));
    assert_eq!(m.get(1), Some(vec![Frag::Lit(false)]));
    assert_eq!(m.get(2), Some(vec![Frag::Lit(false)]));
}
