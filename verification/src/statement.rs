//! The LaBRADOR statement and witness.

use crate::r64::{views, R64};
use vstd::prelude::*;

verus! {

/// A witness vector as the statement announces it: its length in ring
/// elements, a bound on the square of its norm, its role and its flags.
#[derive(Clone, Copy, Debug, PartialEq, Eq)]
pub struct VectorRecord {
    pub n: usize,
    pub betasq: u64,
    pub role: u32,
    pub flags: u32,
}

/// A linear constraint: the blocks `off[j] .. off[j] + len[j]` of vector
/// `idx[j]`, multiplied element by element with `phi`, sum to `b`, or to zero
/// when there is no `b`. The factors of all blocks stand in `phi` one after
/// the other.
#[derive(Clone, Debug, PartialEq, Eq)]
pub struct ConstraintSpec {
    pub idx: Vec<usize>,
    pub off: Vec<usize>,
    pub len: Vec<usize>,
    pub b: Option<R64>,
    pub phi: Vec<R64>,
}

/// What is to be proven: a witness of the announced lengths and norms meets
/// all constraints modulo `q`. The digest ties the statement to the transcript
/// it was derived from.
#[derive(Clone, Debug, PartialEq, Eq)]
pub struct Statement {
    pub q: u64,
    pub digest: [u8; 16],
    pub betasq_w_total: u64,
    pub betasq_inner_total: u64,
    pub vectors: Vec<VectorRecord>,
    pub constraints: Vec<ConstraintSpec>,
}

/// The witness: the coefficients of each vector, 64 for each ring element.
#[derive(Clone, Debug, PartialEq, Eq)]
pub struct Witness {
    pub vectors: Vec<Vec<i64>>,
}

/// The contents of a constraint.
#[verifier::ext_equal]
pub struct ConstraintView {
    pub idx: Seq<usize>,
    pub off: Seq<usize>,
    pub len: Seq<usize>,
    pub b: Option<Seq<u64>>,
    pub phi: Seq<Seq<u64>>,
}

/// The contents of a statement.
#[verifier::ext_equal]
pub struct StatementView {
    pub q: u64,
    pub digest: Seq<u8>,
    pub betasq_w_total: u64,
    pub betasq_inner_total: u64,
    pub vectors: Seq<VectorRecord>,
    pub constraints: Seq<ConstraintView>,
}

impl View for ConstraintSpec {
    type V = ConstraintView;

    open spec fn view(&self) -> ConstraintView {
        ConstraintView {
            idx: self.idx@,
            off: self.off@,
            len: self.len@,
            b: match self.b {
                Some(x) => Some(x@),
                None => None,
            },
            phi: views(self.phi@),
        }
    }
}

/// The contents of each constraint of a list.
pub open spec fn constraint_views(s: Seq<ConstraintSpec>) -> Seq<ConstraintView> {
    Seq::new(s.len(), |i: int| s[i]@)
}

impl View for Statement {
    type V = StatementView;

    open spec fn view(&self) -> StatementView {
        StatementView {
            q: self.q,
            digest: self.digest@,
            betasq_w_total: self.betasq_w_total,
            betasq_inner_total: self.betasq_inner_total,
            vectors: self.vectors@,
            constraints: constraint_views(self.constraints@),
        }
    }
}

impl View for Witness {
    type V = Seq<Seq<i64>>;

    open spec fn view(&self) -> Seq<Seq<i64>> {
        Seq::new(self.vectors@.len(), |i: int| self.vectors@[i]@)
    }
}

} // verus!
