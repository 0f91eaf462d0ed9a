//! The contents of the library's types are their fields, each under its own
//! name.

use crate::export::{ProverBoundary, PublicBoundary};
use crate::public::PublicData;
use crate::ring::{eo_view, eo_views};
use crate::statement::{ConstraintSpec, Statement, Witness};
use vstd::prelude::*;

verus! {

/// The contents of a constraint are its lists, the elements by their
/// coefficients.
pub proof fn law_constraint_contents(c: ConstraintSpec)
    ensures
        c@.idx == c.idx@,
        c@.off == c.off@,
        c@.len == c.len@,
        c@.b is Some <==> c.b is Some,
        c.b is Some ==> c@.b->Some_0 == c.b->Some_0@,
        c@.phi.len() == c.phi@.len(),
        forall|i: int| 0 <= i < c.phi@.len() ==> #[trigger] c@.phi[i] == c.phi@[i]@,
{
}

/// The contents of a statement are its fields and the contents of its
/// constraints.
pub proof fn law_statement_contents(s: Statement)
    ensures
        s@.q == s.q,
        s@.digest == s.digest@,
        s@.betasq_w_total == s.betasq_w_total,
        s@.betasq_inner_total == s.betasq_inner_total,
        s@.vectors == s.vectors@,
        s@.constraints.len() == s.constraints@.len(),
        forall|i: int|
            0 <= i < s.constraints@.len() ==> #[trigger] s@.constraints[i] == s.constraints@[i]@,
{
}

/// The contents of a witness are those of its vectors.
pub proof fn law_witness_contents(w: Witness)
    ensures
        w@.len() == w.vectors@.len(),
        forall|i: int| 0 <= i < w.vectors@.len() ==> #[trigger] w@[i] == w.vectors@[i]@,
{
}

/// The contents of a public boundary are its fields.
pub proof fn law_boundary_contents(b: PublicBoundary)
    ensures
        b@.digest == b.digest@,
        b@.config == b.config,
        b@.a1.len() == b.a1@.len(),
        forall|t: int| 0 <= t < b.a1@.len() ==> #[trigger] b@.a1[t] == b.a1@[t]@,
        b@.a2.len() == b.a2@.len(),
        forall|t: int| 0 <= t < b.a2@.len() ==> #[trigger] b@.a2[t] == b.a2@[t]@,
        b@.a3.len() == b.a3@.len(),
        forall|t: int| 0 <= t < b.a3@.len() ==> #[trigger] b@.a3[t] == b.a3@[t]@,
        b@.inner0 == b.inner0@,
        b@.outer0 == b.outer0@,
        b@.inner1 == b.inner1@,
        b@.outer1 == b.outer1@,
        b@.commitment == b.commitment@,
        b@.z0 == b.z0,
        b@.z1 == b.z1,
{
}

/// The contents of a prover's boundary are those of its public part and its
/// lists.
pub proof fn law_prover_contents(p: ProverBoundary)
    ensures
        p@.public == p.public@,
        p@.w == p.witness@,
        p@.y == p.committed_data@,
        p@.c1 is Some <==> p.inner_committed_data is Some,
        p.inner_committed_data is Some ==> p@.c1->Some_0 == p.inner_committed_data->Some_0@,
{
}

/// The contents of public data are its fields, the elements by the coefficients
/// of their two halves.
pub proof fn law_public_data_contents(d: PublicData)
    ensures
        d@.a1.len() == d.a1@.len(),
        forall|t: int| 0 <= t < d.a1@.len() ==> #[trigger] d@.a1[t] == eo_views(d.a1@[t]@),
        d@.a2.len() == d.a2@.len(),
        forall|t: int| 0 <= t < d.a2@.len() ==> #[trigger] d@.a2[t] == eo_views(d.a2@[t]@),
        d@.a3 == eo_views(d.a3@),
        d@.a2_base_log == d.a2_base_log,
        d@.a3_base_log == d.a3_base_log,
        d@.evals0 == eo_views(d.evals0@),
        d@.evals1 == eo_views(d.evals1@),
        d@.commitment == eo_views(d.commitment@),
        d@.z0 == eo_view(d.z0),
        d@.z1 == eo_view(d.z1),
        forall|i: int|
            0 <= i < d.a3@.len() ==> #[trigger] eo_views(d.a3@)[i] == (
                d.a3@[i].0@,
                d.a3@[i].1@,
            ),
        eo_view(d.z0) == (d.z0.0@, d.z0.1@),
{
}

} // verus!
