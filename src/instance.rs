//! Plain description of a Horn clause instance, as far as this library reads it.
use vstd::prelude::*;

verus! {

/// Type of a predicate argument.
#[derive(Clone, Copy, Debug, PartialEq, Eq, Structural)]
pub enum Typ {
    Int,
    Bool,
}

/// A ground value of a sample argument.
///
/// `Unknown` stands for an argument whose value is not known, of the given type.
#[derive(Clone, Copy, Debug, PartialEq, Eq, Structural)]
pub enum Val {
    Int(i64),
    Bool(bool),
    Unknown(Typ),
}

/// A clause `lhs_preds /\ side conditions => rhs`, without its terms.
#[derive(Clone, Debug)]
pub struct Clause {
    /// Predicates applied in the left-hand side, each once.
    pub lhs_preds: Vec<usize>,
    /// Predicate of the right-hand side, `None` for `false`.
    pub rhs: Option<usize>,
    /// Negative clause not obtained by earlier transformations.
    pub strict_neg: bool,
    /// Clause obtained by unrolling.
    pub from_unrolling: bool,
}

/// What the library reads of a predicate.
#[derive(Clone, Debug)]
pub struct PredInfo {
    /// Predicates referenced by the predicate's definition, if it has one.
    pub def: Option<Vec<usize>>,
    /// Argument types of the predicate before signature reduction.
    pub original_sig: Vec<Typ>,
    /// For each argument of the current signature, its position in the original one.
    pub sig_map: Vec<usize>,
}

/// An instance: a table of predicates and a table of clauses.
#[derive(Clone, Debug)]
pub struct Instance {
    pub preds: Vec<PredInfo>,
    pub clauses: Vec<Clause>,
}

impl PredInfo {
    /// The predicate is fully defined at this level.
    pub open spec fn is_known(self) -> bool {
        self.def.is_some()
    }
}

impl Instance {
    /// Whether predicate `p` is fully defined.
    pub fn is_known(&self, p: usize) -> (r: bool)
        requires
            p < self.preds@.len(),
        ensures
            r == self.preds@[p as int].is_known(),
    {
        self.preds[p].def.is_some()
    }
}

/// A copy of a vector of indices.
pub fn copy_indices(v: &Vec<usize>) -> (r: Vec<usize>)
    ensures
        r@ == v@,
{
    let mut out: Vec<usize> = Vec::new();
    let mut i: usize = 0;
    while i < v.len()
        invariant
            i <= v@.len(),
            out@ == v@.subrange(0, i as int),
        decreases v@.len() - i,
    {
        out.push(v[i]);
        i += 1;
        assert(out@ =~= v@.subrange(0, i as int));
    }
    assert(out@ =~= v@);
    out
}

} // verus!
