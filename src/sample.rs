//! Samples: ground applications of a predicate, and sets of them.
use vstd::prelude::*;
use crate::instance::{Typ, Val};

verus! {

/// A predicate applied to values.
#[derive(Clone, Debug)]
pub struct Sample {
    pub pred: usize,
    pub args: Vec<Val>,
}

/// Mathematical value of a sample.
pub type SampleV = (usize, Seq<Val>);

impl View for Sample {
    type V = SampleV;

    open spec fn view(&self) -> SampleV {
        (self.pred, self.args@)
    }
}

/// Views of a sequence of samples.
pub open spec fn views(v: Seq<Sample>) -> Seq<SampleV> {
    v.map_values(|s: Sample| s@)
}

/// The samples of `v`, as a set.
pub open spec fn sample_set(v: Seq<Sample>) -> Set<SampleV> {
    views(v).to_set()
}

/// Rank of a value: integers, then booleans, then unknowns, each by value.
pub open spec fn val_rank(v: Val) -> (int, int) {
    match v {
        Val::Int(i) => (0, i as int),
        Val::Bool(b) => (1, if b { 1int } else { 0int }),
        Val::Unknown(t) => (2, if t == Typ::Int { 0int } else { 1int }),
    }
}

/// Strict order on values.
pub open spec fn val_lt(a: Val, b: Val) -> bool {
    val_rank(a).0 < val_rank(b).0 || (val_rank(a).0 == val_rank(b).0 && val_rank(a).1 < val_rank(b).1)
}

/// `a` and `b` agree on their first `k` values.
pub open spec fn agree(a: Seq<Val>, b: Seq<Val>, k: int) -> bool {
    0 <= k <= a.len() && k <= b.len() && forall|i: int| 0 <= i < k ==> a[i] == b[i]
}

/// `a` and `b` first differ at `k`, where `a` is smaller: it ends there,
/// or holds a smaller value.
pub open spec fn lt_at(a: Seq<Val>, b: Seq<Val>, k: int) -> bool {
    &&& agree(a, b, k)
    &&& (k == a.len() && k < b.len()) || (k < a.len() && k < b.len() && val_lt(a[k], b[k]))
}

/// Lexicographic order on value sequences.
pub open spec fn args_lt(a: Seq<Val>, b: Seq<Val>) -> bool {
    exists|k: int| lt_at(a, b, k)
}

/// Order on samples: by predicate, then by values.
pub open spec fn sample_lt(a: SampleV, b: SampleV) -> bool {
    a.0 < b.0 || (a.0 == b.0 && args_lt(a.1, b.1))
}

/// Samples stored in increasing order.
pub open spec fn sorted(v: Seq<Sample>) -> bool {
    forall|i: int, j: int| 0 <= i < j < v.len() ==> sample_lt(#[trigger] v[i]@, #[trigger] v[j]@)
}

proof fn lemma_args_lt_trans(a: Seq<Val>, b: Seq<Val>, c: Seq<Val>)
    requires
        args_lt(a, b),
        args_lt(b, c),
    ensures
        args_lt(a, c),
{
    let k1 = choose|k: int| lt_at(a, b, k);
    let k2 = choose|k: int| lt_at(b, c, k);
    if k1 < k2 {
        assert(lt_at(a, c, k1));
    } else if k2 < k1 {
        assert(lt_at(a, c, k2));
    } else {
        assert(lt_at(a, c, k1));
    }
}

proof fn lemma_args_lt_irrefl(a: Seq<Val>)
    ensures
        !args_lt(a, a),
{
    if args_lt(a, a) {
        let k = choose|k: int| lt_at(a, a, k);
    }
}

/// The order on samples is transitive and irreflexive.
pub proof fn lemma_sample_lt_order(a: SampleV, b: SampleV, c: SampleV)
    ensures
        sample_lt(a, b) && sample_lt(b, c) ==> sample_lt(a, c),
        !sample_lt(a, a),
{
    if sample_lt(a, b) && sample_lt(b, c) && a.0 == b.0 && b.0 == c.0 {
        lemma_args_lt_trans(a.1, b.1, c.1);
    }
    lemma_args_lt_irrefl(a.1);
}

/// Compares two values.
fn cmp_val(a: Val, b: Val) -> (r: std::cmp::Ordering)
    ensures
        (r == std::cmp::Ordering::Less) == val_lt(a, b),
        (r == std::cmp::Ordering::Equal) == (a == b),
        (r == std::cmp::Ordering::Greater) == val_lt(b, a),
{
    let ra: u8 = match a { Val::Int(_) => 0, Val::Bool(_) => 1, Val::Unknown(_) => 2 };
    let rb: u8 = match b { Val::Int(_) => 0, Val::Bool(_) => 1, Val::Unknown(_) => 2 };
    if ra < rb {
        return std::cmp::Ordering::Less;
    }
    if rb < ra {
        return std::cmp::Ordering::Greater;
    }
    match (a, b) {
        (Val::Int(x), Val::Int(y)) => {
            if x < y { std::cmp::Ordering::Less } else if y < x { std::cmp::Ordering::Greater } else { std::cmp::Ordering::Equal }
        },
        (Val::Bool(x), Val::Bool(y)) => {
            if !x && y { std::cmp::Ordering::Less } else if x && !y { std::cmp::Ordering::Greater } else { std::cmp::Ordering::Equal }
        },
        (Val::Unknown(x), Val::Unknown(y)) => {
            let xi: u8 = if x == Typ::Int { 0 } else { 1 };
            let yi: u8 = if y == Typ::Int { 0 } else { 1 };
            if xi < yi { std::cmp::Ordering::Less } else if yi < xi { std::cmp::Ordering::Greater } else { std::cmp::Ordering::Equal }
        },
        _ => std::cmp::Ordering::Equal,
    }
}

/// Compares two samples: by predicate, then by values.
pub fn cmp_samples(a: &Sample, b: &Sample) -> (r: std::cmp::Ordering)
    ensures
        (r == std::cmp::Ordering::Less) == sample_lt(a@, b@),
        (r == std::cmp::Ordering::Equal) == (a@ == b@),
        (r == std::cmp::Ordering::Greater) == sample_lt(b@, a@),
{
    proof {
        lemma_args_lt_irrefl(a.args@);
        lemma_args_lt_irrefl(b.args@);
    }
    if a.pred < b.pred {
        return std::cmp::Ordering::Less;
    }
    if b.pred < a.pred {
        return std::cmp::Ordering::Greater;
    }
    let x = &a.args;
    let y = &b.args;
    let mut i: usize = 0;
    while i < x.len() && i < y.len()
        invariant
            a.pred == b.pred,
            *x == a.args,
            *y == b.args,
            agree(x@, y@, i as int),
        decreases x@.len() - i,
    {
        match cmp_val(x[i], y[i]) {
            std::cmp::Ordering::Less => {
                proof {
                    assert(lt_at(x@, y@, i as int));
                    assert(!args_lt(y@, x@)) by {
                        if args_lt(y@, x@) {
                            lemma_args_lt_trans(x@, y@, x@);
                            lemma_args_lt_irrefl(x@);
                        }
                    }
                    assert(x@[i as int] != y@[i as int]);
                }
                return std::cmp::Ordering::Less;
            },
            std::cmp::Ordering::Greater => {
                proof {
                    assert(lt_at(y@, x@, i as int));
                    assert(!args_lt(x@, y@)) by {
                        if args_lt(x@, y@) {
                            lemma_args_lt_trans(x@, y@, x@);
                            lemma_args_lt_irrefl(x@);
                        }
                    }
                    assert(x@[i as int] != y@[i as int]);
                }
                return std::cmp::Ordering::Greater;
            },
            std::cmp::Ordering::Equal => {},
        }
        i += 1;
    }
    if x.len() < y.len() {
        proof {
            assert(lt_at(x@, y@, i as int));
            assert(!args_lt(y@, x@)) by {
                if args_lt(y@, x@) {
                    lemma_args_lt_trans(x@, y@, x@);
                }
            }
        }
        std::cmp::Ordering::Less
    } else if y.len() < x.len() {
        proof {
            assert(lt_at(y@, x@, i as int));
            assert(!args_lt(x@, y@)) by {
                if args_lt(x@, y@) {
                    lemma_args_lt_trans(x@, y@, x@);
                }
            }
        }
        std::cmp::Ordering::Greater
    } else {
        proof {
            assert(x@ =~= y@);
        }
        std::cmp::Ordering::Equal
    }
}

/// A copy of a vector of values.
pub fn copy_vals(v: &Vec<Val>) -> (r: Vec<Val>)
    ensures
        r@ == v@,
{
    let mut out: Vec<Val> = Vec::new();
    let mut i: usize = 0;
    while i < v.len()
        invariant
            i <= v@.len(),
            out@ == v@.subrange(0, i as int),
        decreases v@.len() - i,
    {
        out.push(v[i]);
        i += 1;
        assert(out@ =~= v@.subrange(0, i as int));
    }
    assert(out@ =~= v@);
    out
}

impl Sample {
    /// A sample of `pred` on `args`.
    pub fn new(pred: usize, args: Vec<Val>) -> (r: Sample)
        ensures
            r@ == (pred, args@),
    {
        Sample { pred, args }
    }

    /// A copy of the sample.
    pub fn copy(&self) -> (r: Sample)
        ensures
            r@ == self@,
    {
        Sample { pred: self.pred, args: copy_vals(&self.args) }
    }

    /// Same predicate and same values.
    pub fn same(&self, o: &Sample) -> (r: bool)
        ensures
            r == (self@ == o@),
    {
        if self.pred != o.pred || self.args.len() != o.args.len() {
            return false;
        }
        let mut i: usize = 0;
        while i < self.args.len()
            invariant
                i <= self.args@.len(),
                self.args@.len() == o.args@.len(),
                forall|j: int| 0 <= j < i ==> self.args@[j] == o.args@[j],
            decreases self.args@.len() - i,
        {
            if self.args[i] != o.args[i] {
                return false;
            }
            i += 1;
        }
        assert(self.args@ =~= o.args@);
        true
    }
}

/// Position of a sample equal to `s` in `v`, if any.
pub fn find_sample(v: &Vec<Sample>, s: &Sample) -> (r: Option<usize>)
    ensures
        match r {
            Some(i) => i < v@.len() && v@[i as int]@ == s@,
            None => !sample_set(v@).contains(s@),
        },
{
    let mut i: usize = 0;
    while i < v.len()
        invariant
            i <= v@.len(),
            forall|j: int| 0 <= j < i ==> (#[trigger] v@[j])@ != s@,
        decreases v@.len() - i,
    {
        if v[i].same(s) {
            return Some(i);
        }
        i += 1;
    }
    proof {
        if sample_set(v@).contains(s@) {
            let j = choose|j: int| 0 <= j < views(v@).len() && views(v@)[j] == s@;
            assert(v@[j]@ == s@);
        }
    }
    None
}

/// Samples in increasing order are distinct.
pub proof fn lemma_sorted_distinct(v: Seq<Sample>)
    requires
        sorted(v),
    ensures
        views(v).no_duplicates(),
{
    assert forall|i: int, j: int| 0 <= i < views(v).len() && 0 <= j < views(v).len() && i != j
        implies views(v)[i] != views(v)[j] by {
        lemma_sample_lt_order(v[i]@, v[j]@, v[i]@);
        lemma_sample_lt_order(v[j]@, v[i]@, v[j]@);
        if i < j {
            assert(sample_lt(v[i]@, v[j]@));
        } else {
            assert(sample_lt(v[j]@, v[i]@));
        }
    }
}

/// Where `s` stands in the ordered `v`: `Ok` with its position when an equal
/// sample is there, else `Err` with the position where it would go.
pub fn sorted_position(v: &Vec<Sample>, s: &Sample) -> (r: Result<usize, usize>)
    requires
        sorted(v@),
    ensures
        match r {
            Ok(i) => i < v@.len() && v@[i as int]@ == s@,
            Err(j) => {
                &&& j <= v@.len()
                &&& !sample_set(v@).contains(s@)
                &&& forall|k: int| 0 <= k < j ==> sample_lt((#[trigger] v@[k])@, s@)
                &&& forall|k: int| j <= k < v@.len() ==> sample_lt(s@, (#[trigger] v@[k])@)
            },
        },
{
    let mut j: usize = 0;
    let mut stop = false;
    while j < v.len() && !stop
        invariant
            sorted(v@),
            j <= v@.len(),
            forall|k: int| 0 <= k < j ==> sample_lt((#[trigger] v@[k])@, s@),
            stop ==> j < v@.len() && sample_lt(s@, v@[j as int]@),
        decreases v@.len() - j + if stop { 0int } else { 1int },
    {
        match cmp_samples(&v[j], s) {
            std::cmp::Ordering::Less => {
                j += 1;
            },
            std::cmp::Ordering::Equal => {
                return Ok(j);
            },
            std::cmp::Ordering::Greater => {
                stop = true;
            },
        }
    }
    proof {
        assert forall|k: int| j <= k < v@.len() implies sample_lt(s@, (#[trigger] v@[k])@) by {
            if k > j {
                lemma_sample_lt_order(s@, v@[j as int]@, v@[k]@);
            }
        }
        if sample_set(v@).contains(s@) {
            let k = choose|k: int| 0 <= k < views(v@).len() && views(v@)[k] == s@;
            lemma_sample_lt_order(s@, s@, s@);
            assert(v@[k]@ == s@);
        }
    }
    Err(j)
}

/// Adds a copy of `s` to `v`, in order, unless an equal sample is there.
pub fn insert_sample(v: &mut Vec<Sample>, s: &Sample)
    requires
        sorted(old(v)@),
    ensures
        sorted(final(v)@),
        views(final(v)@).no_duplicates(),
        sample_set(final(v)@) == sample_set(old(v)@).insert(s@),
{
    let mut j: usize = 0;
    let mut stop = false;
    while j < v.len() && !stop
        invariant
            v@ == old(v)@,
            sorted(v@),
            j <= v@.len(),
            forall|k: int| 0 <= k < j ==> sample_lt((#[trigger] v@[k])@, s@),
            stop ==> j < v@.len() && sample_lt(s@, v@[j as int]@),
        decreases v@.len() - j + if stop { 0int } else { 1int },
    {
        match cmp_samples(&v[j], s) {
            std::cmp::Ordering::Less => {
                j += 1;
            },
            std::cmp::Ordering::Equal => {
                proof {
                    lemma_sorted_distinct(v@);
                    assert(views(v@)[j as int] == s@);
                    assert(sample_set(v@) =~= sample_set(v@).insert(s@));
                }
                return;
            },
            std::cmp::Ordering::Greater => {
                stop = true;
            },
        }
    }
    let ghost before = v@;
    v.insert(j, s.copy());
    proof {
        before.insert_ensures(j as int, v@[j as int]);
        assert forall|a: int, b: int| 0 <= a < b < v@.len() implies sample_lt(#[trigger] v@[a]@, #[trigger] v@[b]@) by {
            if b == j {
                assert(v@[a] == before[a]);
            } else if a == j {
                assert(v@[b] == before[b - 1]);
                if b - 1 > j {
                    lemma_sample_lt_order(s@, before[j as int]@, before[b - 1]@);
                }
            } else if a < j && b < j {
                assert(v@[a] == before[a] && v@[b] == before[b]);
            } else if a < j {
                assert(v@[a] == before[a] && v@[b] == before[b - 1]);
            } else {
                assert(v@[a] == before[a - 1] && v@[b] == before[b - 1]);
            }
        }
        lemma_sorted_distinct(v@);
        assert forall|x: SampleV| sample_set(v@).contains(x) <==> sample_set(before).insert(s@).contains(x) by {
            if sample_set(v@).contains(x) {
                let k = choose|k: int| 0 <= k < views(v@).len() && views(v@)[k] == x;
                if k < j {
                    assert(views(before)[k] == x);
                } else if k > j {
                    assert(views(before)[k - 1] == x);
                }
            }
            if sample_set(before).contains(x) {
                let k = choose|k: int| 0 <= k < views(before).len() && views(before)[k] == x;
                if k < j {
                    assert(views(v@)[k] == x);
                } else {
                    assert(views(v@)[k + 1] == x);
                }
            }
            if x == s@ {
                assert(views(v@)[j as int] == x);
            }
        }
        assert(sample_set(v@) =~= sample_set(before).insert(s@));
    }
}

} // verus!
