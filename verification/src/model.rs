//! The oscillator model: derived operators and derivative-term selection.
//!
//! A model is built once from a validated network and control configuration
//! and never mutated: the edge list and edge weights (the incidence and
//! diagonal weight operators), the per-node forcing gains and frequencies,
//! the natural frequencies, the cluster layout with its averaging weights
//! (the block-normalized average-coupling operator), and the control regime.
//! The delayed variant additionally owns the ring buffer of historical
//! states. The numerical derivative itself is floating-point work done by
//! the caller; the model decides exactly which terms the derivative has at
//! each step and hands out the exact operator data.

use crate::config::{
    control_valid, lemma_sum_prefix_mono, network_valid, sum_prefix, ControlParam, NetworkParam,
    ValidationError,
};
use crate::delay::DelayBuffer;
use crate::rational::{
    lemma_rat_add_congruence, lemma_rat_add_wf, lemma_rat_div_add, lemma_rat_div_self_one,
    lemma_rat_eq_trans, lemma_rat_le_congruence, lemma_rat_scale_congruence, rat_add, rat_div,
    rat_eq, rat_le, rat_one, rat_scale, rat_wf, rat_zero, Rat,
};
use crate::scalar::{
    dyadic_value, lemma_dyadic_value_wf, lemma_le_scale, lemma_value_sign, lemma_value_wf, Dyadic,
};
use crate::topology::{collect_edges, edge_seq, incidence_entry, mat_view};
use vstd::arithmetic::div_mod::{lemma_fundamental_div_mod, lemma_mod_bound};
use vstd::arithmetic::power2::{
    lemma2_to64, lemma2_to64_rest, lemma_pow2_pos, lemma_pow2_strictly_increases,
    lemma_pow2_unfold, pow2,
};
use vstd::prelude::*;

verus! {

/// The three control regimes, selected by `control_type`.
#[derive(Clone, Copy, Debug, PartialEq, Eq, Structural)]
pub enum ControlRegime {
    /// `control_type == 0`: feedback toward the cluster mean phase.
    ClusterFeedback,
    /// `control_type == 1`: forcing toward an external reference phase.
    ExternalForcing,
    /// Any other `control_type`: control is switched off.
    Disabled,
}

/// The regime a control-type code selects.
pub open spec fn regime_of(control_type: usize) -> ControlRegime {
    if control_type == 0 {
        ControlRegime::ClusterFeedback
    } else if control_type == 1 {
        ControlRegime::ExternalForcing
    } else {
        ControlRegime::Disabled
    }
}

/// The terms of the phase derivative at one step. Writing `omega` for the
/// natural frequencies, `IncW`/`IncT` for the incidence-weight product and
/// the transposed incidence, `InW` for the diagonal forcing gains, `AvW` for
/// the average-coupling operator and `in_omega` for the forcing frequencies:
#[derive(Clone, Copy, Debug, PartialEq, Eq, Structural)]
pub enum DerivativeTerms {
    /// `dx = omega - IncW*sin(IncT*x) + InW*sin(AvW*x - x)`
    ClusterMean,
    /// `dx = omega - IncW*sin(IncT*x) + InW*sin(AvW*d - x)`, where `d` is the
    /// delayed state read from the ring buffer.
    DelayedClusterMean,
    /// `dx = omega - IncW*sin(IncT*x)`: the buffer is still filling, so the
    /// mean-field term is omitted.
    PairwiseOnly,
    /// `dx = omega - IncW*sin(IncT*x) + InW*sin(in_omega*t - x)`
    Forcing,
    /// `dx = x`: control disabled, the state passes through unchanged.
    Identity,
}

/// Term selection without a delay buffer.
pub open spec fn plain_terms(control_type: usize) -> DerivativeTerms {
    if control_type == 0 {
        DerivativeTerms::ClusterMean
    } else if control_type == 1 {
        DerivativeTerms::Forcing
    } else {
        DerivativeTerms::Identity
    }
}

/// Term selection at step `k` with a delay of `delay_step` steps: the
/// mean-field term is omitted until the buffer holds a full delay span, and
/// reads the delayed state afterwards; forcing is never delayed.
pub open spec fn delayed_terms(control_type: usize, k: int, delay_step: int) -> DerivativeTerms {
    if control_type == 0 {
        if k < delay_step {
            DerivativeTerms::PairwiseOnly
        } else {
            DerivativeTerms::DelayedClusterMean
        }
    } else if control_type == 1 {
        DerivativeTerms::Forcing
    } else {
        DerivativeTerms::Identity
    }
}

/// The network and control records describe the same clustered node set.
pub open spec fn compatible(network: NetworkParam, control: ControlParam) -> bool {
    &&& control.cluster_nodes_num@ == network.cluster_nodes_num@
    &&& control.input_dim == network.state_dim
}

/// All averaging weights of one cluster are zero, so its mean is undefined.
pub open spec fn row_all_zero(row: Seq<Dyadic>) -> bool {
    forall|j: int| 0 <= j < row.len() ==> (#[trigger] row[j]).mant == 0
}

/// Some averaging weight of the cluster is positive, so its sum is too.
pub open spec fn has_positive_weight(row: Seq<Dyadic>) -> bool {
    exists|j: int| 0 <= j < row.len() && (#[trigger] row[j]).mant > 0
}

/// The immutable operator set of one oscillator network under one control
/// scheme.
pub struct KuramotoOscillators {
    /// Number of nodes.
    pub state_dim: usize,
    /// The regime selector.
    pub control_type: usize,
    /// One `(i, j)` pair per edge, `i < j`: the incidence column of edge `e`
    /// holds `+1` at row `i` and `-1` at row `j`.
    pub edges: Vec<(usize, usize)>,
    /// The diagonal of the edge-weight operator, one weight per edge.
    pub edge_weights: Vec<Dyadic>,
    /// The diagonal of the forcing-gain operator, one gain per node.
    pub input_weight: Vec<Dyadic>,
    /// Natural frequency of each node.
    pub omega: Vec<Dyadic>,
    /// Forcing frequency of each node.
    pub input_omega: Vec<Dyadic>,
    /// Sizes of the consecutive clusters.
    pub cluster_nodes_num: Vec<usize>,
    /// Node offset where each cluster starts; one extra final entry equal to
    /// `state_dim`.
    pub cluster_offsets: Vec<usize>,
    /// Averaging weights, one row per cluster: within cluster `k`, the
    /// average-coupling operator has entry `average_weight[k][j] / s_k` in
    /// every row of the block, where `s_k` is the row's sum.
    pub average_weight: Vec<Vec<Dyadic>>,
}

impl KuramotoOscillators {
    /// Structural invariant established by the constructor.
    pub open spec fn wf(self) -> bool {
        let nc = self.cluster_nodes_num@.len() as int;
        &&& self.cluster_offsets@.len() == nc + 1
        &&& self.cluster_offsets@[0] == 0
        &&& forall|k: int|
            0 <= k < nc ==> #[trigger] self.cluster_offsets@[k + 1] == self.cluster_offsets@[k]
                + self.cluster_nodes_num@[k]
        &&& self.cluster_offsets@[nc] == self.state_dim
        &&& self.average_weight@.len() == nc
        &&& forall|k: int|
            0 <= k < nc ==> (#[trigger] self.average_weight@[k])@.len()
                == self.cluster_nodes_num@[k]
        &&& forall|k: int, j: int|
            0 <= k < nc && 0 <= j < self.average_weight@[k]@.len() ==> (
            #[trigger] self.average_weight@[k]@[j]).mant >= 0
        &&& forall|k: int|
            0 <= k < nc ==> has_positive_weight((#[trigger] self.average_weight@[k])@)
        &&& self.edge_weights@.len() == self.edges@.len()
        &&& forall|e: int|
            0 <= e < self.edges@.len() ==> (#[trigger] self.edges@[e]).0 < self.edges@[e].1
                && self.edges@[e].1 < self.state_dim
        &&& self.omega@.len() == self.state_dim
        &&& self.input_weight@.len() == self.state_dim
        &&& self.input_omega@.len() == self.state_dim
    }

    /// Builds the operator set from validated, mutually compatible records.
    /// Fails exactly when some cluster's averaging weights are all zero,
    /// since that cluster's mean would divide by zero.
    #[verifier::loop_isolation(false)]
    pub fn new(network_param: &NetworkParam, control_param: &ControlParam) -> (r: Result<
        KuramotoOscillators,
        ValidationError,
    >)
        requires
            network_valid(*network_param),
            control_valid(*control_param),
            compatible(*network_param, *control_param),
        ensures
            match r {
                Result::Ok(m) => {
                    &&& m.wf()
                    &&& m.state_dim == network_param.state_dim
                    &&& m.control_type == control_param.control_type
                    &&& m.edges@ == edge_seq(
                        mat_view(network_param.connectivity@),
                        network_param.state_dim as int,
                    )
                    &&& forall|e: int|
                        0 <= e < m.edges@.len() ==> m.edge_weights@[e]
                            == network_param.connectivity@[(
                        #[trigger] m.edges@[e]).0 as int]@[m.edges@[e].1 as int]
                    &&& m.omega@ == network_param.frequency@
                    &&& m.input_weight@ == control_param.input_weight@
                    &&& m.input_omega@ == control_param.input_frequency@
                    &&& m.cluster_nodes_num@ == network_param.cluster_nodes_num@
                    &&& forall|k: int|
                        0 <= k <= network_param.cluster_nodes_num@.len()
                            ==> #[trigger] m.cluster_offsets@[k] == sum_prefix(
                            network_param.cluster_nodes_num@,
                            k,
                        )
                    &&& m.average_weight@.len() == control_param.average_weight@.len()
                    &&& forall|k: int|
                        0 <= k < m.average_weight@.len() ==> (#[trigger] m.average_weight@[k])@
                            == control_param.average_weight@[k]@
                },
                Result::Err(e) => e == ValidationError::ZeroClusterWeight,
            },
            r is Err <==> exists|k: int|
                0 <= k < control_param.average_weight@.len() && row_all_zero(
                    (#[trigger] control_param.average_weight@[k])@,
                ),
    {
        // Reject a cluster whose mean would divide by zero.
        let nc = control_param.average_weight.len();
        let mut k: usize = 0;
        while k < nc
            invariant
                k <= nc,
                forall|t: int|
                    0 <= t < k ==> has_positive_weight(
                        (#[trigger] control_param.average_weight@[t])@,
                    ),
            decreases nc - k,
        {
            let row_len = control_param.average_weight[k].len();
            let mut found: bool = false;
            let ghost mut wit: int = 0;
            let mut j: usize = 0;
            while j < row_len
                invariant
                    j <= row_len,
                    row_len == control_param.average_weight@[k as int]@.len(),
                    found ==> 0 <= wit < row_len && (control_param.average_weight@[k as int]@[
                    wit]).mant > 0,
                    !found ==> forall|t: int|
                        0 <= t < j ==> (#[trigger] control_param.average_weight@[k as int]@[
                        t]).mant <= 0,
                decreases row_len - j,
            {
                if control_param.average_weight[k][j].is_pos() {
                    found = true;
                    proof {
                        wit = j as int;
                    }
                }
                j = j + 1;
            }
            if !found {
                assert(row_all_zero(control_param.average_weight@[k as int]@));
                return Err(ValidationError::ZeroClusterWeight);
            }
            proof {
                assert((control_param.average_weight@[k as int]@[wit]).mant > 0);
                assert(has_positive_weight(control_param.average_weight@[k as int]@));
            }
            k = k + 1;
        }
        // Cluster offsets: prefix sums of the cluster sizes.
        let sizes = &network_param.cluster_nodes_num;
        let ns = sizes.len();
        let mut cluster_offsets: Vec<usize> = Vec::new();
        cluster_offsets.push(0);
        let mut off: usize = 0;
        k = 0;
        while k < ns
            invariant
                k <= ns,
                cluster_offsets@.len() == k + 1,
                cluster_offsets@[0] == 0,
                cluster_offsets@[k as int] == off,
                off as int == sum_prefix(sizes@, k as int),
                forall|t: int|
                    0 <= t < k ==> #[trigger] cluster_offsets@[t + 1] == cluster_offsets@[t]
                        + sizes@[t],
                forall|t: int|
                    0 <= t <= k ==> #[trigger] cluster_offsets@[t] == sum_prefix(sizes@, t),
            decreases ns - k,
        {
            proof {
                lemma_sum_prefix_mono(sizes@, k as int + 1, sizes@.len() as int);
            }
            off = off + sizes[k];
            cluster_offsets.push(off);
            k = k + 1;
        }
        let (edges, edge_weights) = collect_edges(network_param);
        let m = KuramotoOscillators {
            state_dim: network_param.state_dim,
            control_type: control_param.control_type,
            edges,
            edge_weights,
            input_weight: copy_vec(&control_param.input_weight),
            omega: copy_vec(&network_param.frequency),
            input_omega: copy_vec(&control_param.input_frequency),
            cluster_nodes_num: copy_vec(&network_param.cluster_nodes_num),
            cluster_offsets,
            average_weight: copy_mat(&control_param.average_weight),
        };
        Ok(m)
    }

    /// The regime the model runs under.
    pub fn regime(&self) -> (r: ControlRegime)
        ensures
            r == regime_of(self.control_type),
    {
        if self.control_type == 0 {
            ControlRegime::ClusterFeedback
        } else if self.control_type == 1 {
            ControlRegime::ExternalForcing
        } else {
            ControlRegime::Disabled
        }
    }

    /// The terms of the derivative under this model. With control disabled
    /// the derivative is the state itself, whatever the topology.
    pub fn derivative_terms(&self) -> (r: DerivativeTerms)
        ensures
            r == plain_terms(self.control_type),
    {
        if self.control_type == 0 {
            DerivativeTerms::ClusterMean
        } else if self.control_type == 1 {
            DerivativeTerms::Forcing
        } else {
            DerivativeTerms::Identity
        }
    }

    /// Materializes the incidence matrix: `state_dim` rows, one column per
    /// edge, `+1` at the edge's first endpoint and `-1` at its second.
    #[verifier::loop_isolation(false)]
    pub fn incidence(&self) -> (r: Vec<Vec<i64>>)
        requires
            self.wf(),
        ensures
            r@.len() == self.state_dim,
            forall|i: int| 0 <= i < r@.len() ==> (#[trigger] r@[i])@.len() == self.edges@.len(),
            forall|i: int, e: int|
                0 <= i < r@.len() && 0 <= e < self.edges@.len() ==> #[trigger] r@[i]@[e]
                    == incidence_entry(self.edges@[e], i),
    {
        let n = self.state_dim;
        let ne = self.edges.len();
        let mut rows: Vec<Vec<i64>> = Vec::new();
        let mut i: usize = 0;
        while i < n
            invariant
                i <= n,
                rows@.len() == i,
                forall|t: int| 0 <= t < i ==> (#[trigger] rows@[t])@.len() == ne,
                forall|t: int, e: int|
                    0 <= t < i && 0 <= e < ne ==> #[trigger] rows@[t]@[e] == incidence_entry(
                        self.edges@[e],
                        t,
                    ),
            decreases n - i,
        {
            let mut row: Vec<i64> = Vec::new();
            let mut e: usize = 0;
            while e < ne
                invariant
                    e <= ne,
                    row@.len() == e,
                    forall|t: int|
                        0 <= t < e ==> #[trigger] row@[t] == incidence_entry(
                            self.edges@[t],
                            i as int,
                        ),
                decreases ne - e,
            {
                let (a, b) = self.edges[e];
                if a == i {
                    row.push(1);
                } else if b == i {
                    row.push(-1);
                } else {
                    row.push(0);
                }
                e = e + 1;
            }
            rows.push(row);
            i = i + 1;
        }
        rows
    }
}

/// Copies a vector of plain values.
fn copy_vec<T: Copy>(v: &Vec<T>) -> (r: Vec<T>)
    ensures
        r@ == v@,
{
    let mut r: Vec<T> = Vec::new();
    let mut i: usize = 0;
    while i < v.len()
        invariant
            i <= v@.len(),
            r@ == v@.take(i as int),
        decreases v@.len() - i,
    {
        r.push(v[i]);
        proof {
            assert(v@.take(i as int).push(v@[i as int]) =~= v@.take(i as int + 1));
        }
        i = i + 1;
    }
    proof {
        assert(v@.take(v@.len() as int) =~= v@);
    }
    r
}

/// Copies a matrix of scalars row by row.
fn copy_mat(v: &Vec<Vec<Dyadic>>) -> (r: Vec<Vec<Dyadic>>)
    ensures
        r@.len() == v@.len(),
        forall|k: int| 0 <= k < v@.len() ==> (#[trigger] r@[k])@ == v@[k]@,
{
    let mut r: Vec<Vec<Dyadic>> = Vec::new();
    let mut k: usize = 0;
    while k < v.len()
        invariant
            k <= v@.len(),
            r@.len() == k,
            forall|t: int| 0 <= t < k ==> (#[trigger] r@[t])@ == v@[t]@,
        decreases v@.len() - k,
    {
        r.push(copy_vec(&v[k]));
        k = k + 1;
    }
    r
}

/// The delayed variant: the same operator set plus the ring buffer that
/// supplies the state from `delay_step` steps earlier.
pub struct DelayedKuramotoOscillators<T> {
    /// The operator set shared with the undelayed dynamics.
    pub oscillators: KuramotoOscillators,
    /// The ring buffer of the most recent `delay_step` states.
    pub delay_buffer: DelayBuffer<T>,
    /// How many steps the mean-field term lags behind.
    pub delay_step: usize,
}

impl<T> DelayedKuramotoOscillators<T> {
    /// Structural invariant established by the constructor.
    pub open spec fn wf(self) -> bool {
        &&& self.oscillators.wf()
        &&& self.delay_buffer.wf()
        &&& self.delay_buffer.capacity() == self.delay_step
        &&& self.delay_step >= 1
    }

    /// Builds the operator set and an empty delay buffer. Fails exactly as
    /// the undelayed constructor does.
    pub fn new(
        network_param: &NetworkParam,
        control_param: &ControlParam,
        delay_step: usize,
    ) -> (r: Result<DelayedKuramotoOscillators<T>, ValidationError>)
        requires
            network_valid(*network_param),
            control_valid(*control_param),
            compatible(*network_param, *control_param),
            delay_step >= 1,
        ensures
            match r {
                Result::Ok(m) => {
                    &&& m.wf()
                    &&& m.delay_step == delay_step
                    &&& m.delay_buffer.pushed() == Seq::<T>::empty()
                    &&& m.oscillators.state_dim == network_param.state_dim
                    &&& m.oscillators.control_type == control_param.control_type
                    &&& m.oscillators.edges@ == edge_seq(
                        mat_view(network_param.connectivity@),
                        network_param.state_dim as int,
                    )
                    &&& forall|e: int|
                        0 <= e < m.oscillators.edges@.len() ==> m.oscillators.edge_weights@[e]
                            == network_param.connectivity@[(
                        #[trigger] m.oscillators.edges@[e]).0 as int]@[m.oscillators.edges@[
                        e].1 as int]
                    &&& m.oscillators.omega@ == network_param.frequency@
                    &&& m.oscillators.input_weight@ == control_param.input_weight@
                    &&& m.oscillators.input_omega@ == control_param.input_frequency@
                    &&& m.oscillators.cluster_nodes_num@ == network_param.cluster_nodes_num@
                    &&& forall|k: int|
                        0 <= k <= network_param.cluster_nodes_num@.len()
                            ==> #[trigger] m.oscillators.cluster_offsets@[k] == sum_prefix(
                            network_param.cluster_nodes_num@,
                            k,
                        )
                    &&& m.oscillators.average_weight@.len() == control_param.average_weight@.len()
                    &&& forall|k: int|
                        0 <= k < m.oscillators.average_weight@.len() ==> (
                        #[trigger] m.oscillators.average_weight@[k])@
                            == control_param.average_weight@[k]@
                },
                Result::Err(e) => e == ValidationError::ZeroClusterWeight,
            },
            r is Err <==> exists|k: int|
                0 <= k < control_param.average_weight@.len() && row_all_zero(
                    (#[trigger] control_param.average_weight@[k])@,
                ),
    {
        match KuramotoOscillators::new(network_param, control_param) {
            Ok(oscillators) => Ok(
                DelayedKuramotoOscillators {
                    oscillators,
                    delay_buffer: DelayBuffer::new(delay_step),
                    delay_step,
                },
            ),
            Err(e) => Err(e),
        }
    }

    /// The terms of the derivative at step `k`: the mean-field term is
    /// omitted while the buffer is still filling and delayed afterwards;
    /// forcing and the disabled regime never touch the buffer.
    pub fn derivative_terms(&self, k: usize) -> (r: DerivativeTerms)
        ensures
            r == delayed_terms(self.oscillators.control_type, k as int, self.delay_step as int),
    {
        if self.oscillators.control_type == 0 {
            if k < self.delay_step {
                DerivativeTerms::PairwiseOnly
            } else {
                DerivativeTerms::DelayedClusterMean
            }
        } else if self.oscillators.control_type == 1 {
            DerivativeTerms::Forcing
        } else {
            DerivativeTerms::Identity
        }
    }

    /// The state the mean-field term uses at step `k`: the one recorded
    /// exactly `delay_step` steps earlier. Must be read before the state of
    /// step `k` itself is pushed.
    pub fn delayed_phase(&self, k: usize) -> (r: &T)
        requires
            self.wf(),
            k as nat == self.delay_buffer.pushed().len(),
            k >= self.delay_step,
        ensures
            *r == self.delay_buffer.pushed()[k - self.delay_step],
    {
        self.delay_buffer.read(k)
    }

    /// Records the pre-update state of step `k`, after the derivative for
    /// step `k` has been evaluated.
    pub fn push_buffer(&mut self, x: T, k: usize)
        requires
            old(self).wf(),
            k as nat == old(self).delay_buffer.pushed().len(),
        ensures
            final(self).wf(),
            final(self).oscillators == old(self).oscillators,
            final(self).delay_step == old(self).delay_step,
            final(self).delay_buffer.pushed() == old(self).delay_buffer.pushed().push(x),
    {
        self.delay_buffer.push(x, k);
    }
}

/// Zero-coupling reduction: a model whose connectivity is all zero has no
/// edges, so the pairwise coupling term vanishes at every step; and with the
/// control disabled, both the plain and the delayed term selection pick the
/// bare pass-through `dx = x` at every step, whatever the delay. The
/// floating-point update built from that selection is then `x + dt * x`
/// componentwise, outside this library's scalars.
pub proof fn lemma_zero_coupling_disabled(m: KuramotoOscillators, p: NetworkParam)
    requires
        crate::config::connectivity_square(p),
        m.edges@ == edge_seq(mat_view(p.connectivity@), p.state_dim as int),
        forall|i: int, j: int|
            0 <= i < p.state_dim && 0 <= j < p.state_dim ==> (#[trigger] p.connectivity@[i]@[
            j]).mant == 0,
        m.control_type != 0,
        m.control_type != 1,
    ensures
        m.edges@ == Seq::<(usize, usize)>::empty(),
        plain_terms(m.control_type) == DerivativeTerms::Identity,
        forall|k: int, delay_step: int|
            #[trigger] delayed_terms(m.control_type, k, delay_step)
                == DerivativeTerms::Identity,
{
    let c = mat_view(p.connectivity@);
    let n = p.state_dim as int;
    assert forall|r: int, s: int| 0 <= r < n && 0 <= s < n implies (#[trigger] c[r][s]).mant
        == 0 by {
        assert(c[r] == p.connectivity@[r]@);
    }
    crate::topology::lemma_zero_connectivity_no_edges(c, n, 0, 1);
}

/// Carries the value-level comparison against `k` steps of size `dt` across
/// canonicalization, down to one integer inequality.
proof fn lemma_ceil_bridge(t_val: Rat, d_val: Rat, mt: int, et: int, md: int, ed: int, k: int)
    requires
        rat_eq(dyadic_value(mt, et), t_val),
        rat_eq(dyadic_value(md, ed), d_val),
        rat_wf(t_val),
        rat_wf(d_val),
        md > 0,
    ensures
        rat_le(t_val, rat_scale(k, d_val)) <==> (if et >= ed {
            mt * pow2((et - ed) as nat) <= k * md
        } else {
            mt <= k * (md * pow2((ed - et) as nat))
        }),
{
    let ca = dyadic_value(mt, et);
    let cd = dyadic_value(md, ed);
    lemma_dyadic_value_wf(mt, et);
    lemma_dyadic_value_wf(md, ed);
    lemma_rat_scale_congruence(k, cd, d_val);
    lemma_rat_le_congruence(ca, t_val, rat_scale(k, cd), rat_scale(k, d_val));
    lemma_le_scale(mt, et, md, ed, k);
}

/// The number of fixed integration steps over the horizon: the least `n`
/// with `n * dt >= simulation_time`, or nothing when that `n` does not fit a
/// machine word. Exact: no rounding enters the quotient.
#[verifier::loop_isolation(false)]
pub fn step_count(dt: &Dyadic, simulation_time: &Dyadic) -> (r: Option<usize>)
    requires
        dt.mant > 0,
        simulation_time.mant > 0,
    ensures
        match r {
            Option::Some(n) => 1 <= n && rat_le(
                simulation_time.value(),
                rat_scale(n as int, dt.value()),
            ) && !rat_le(simulation_time.value(), rat_scale(n as int - 1, dt.value())),
            Option::None => !rat_le(
                simulation_time.value(),
                rat_scale(usize::MAX as int, dt.value()),
            ),
        },
{
    let (mt64, et) = simulation_time.canonical_parts();
    let (md64, ed) = dt.canonical_parts();
    let mt: u128 = mt64 as u128;
    let md: u128 = md64 as u128;
    let ghost tv = simulation_time.value();
    let ghost dv = dt.value();
    proof {
        lemma_value_wf(*dt);
        lemma_value_wf(*simulation_time);
        lemma2_to64();
        lemma2_to64_rest();
    }
    if et >= ed {
        let d: i128 = et - ed;
        let mut q: u128 = mt / md;
        let mut rr: u128 = mt % md;
        let mut t: i128 = 0;
        proof {
            lemma_fundamental_div_mod(mt as int, md as int);
            lemma_mod_bound(mt as int, md as int);
            assert(mt as int * pow2(t as nat) == md as int * (q as int) + rr as int)
                by (nonlinear_arith)
                requires
                    pow2(t as nat) == 1,
                    mt as int == md as int * (q as int) + rr as int,
            ;
        }
        if q > usize::MAX as u128 {
            proof {
                lemma_pow2_pos(d as nat);
                assert(mt as int * pow2(d as nat) > usize::MAX as int * md as int)
                    by (nonlinear_arith)
                    requires
                        mt as int == md as int * (q as int) + rr as int,
                        q as int > usize::MAX as int,
                        rr as int >= 0,
                        md as int >= 1,
                        mt as int >= 1,
                        pow2(d as nat) >= 1,
                ;
                lemma_ceil_bridge(
                    tv,
                    dv,
                    mt64 as int,
                    et as int,
                    md64 as int,
                    ed as int,
                    usize::MAX as int,
                );
            }
            return None;
        }
        while t < d
            invariant
                0 <= t <= d,
                mt as int * pow2(t as nat) == md as int * q + rr,
                0 <= rr < md,
                q <= usize::MAX as u128,
            decreases d - t,
        {
            let rr2 = rr * 2;
            let one_more = rr2 >= md;
            let qn = q * 2 + (if one_more {
                1
            } else {
                0
            });
            let rn = if one_more {
                rr2 - md
            } else {
                rr2
            };
            proof {
                lemma_pow2_unfold((t + 1) as nat);
                assert(mt as int * pow2((t + 1) as nat) == md as int * qn + rn)
                    by (nonlinear_arith)
                    requires
                        mt as int * pow2(t as nat) == md as int * (q as int) + rr as int,
                        pow2((t + 1) as nat) == 2 * pow2(t as nat),
                        qn as int == 2 * (q as int) + (if one_more {
                            1int
                        } else {
                            0int
                        }),
                        rn as int == 2 * (rr as int) - (if one_more {
                            md as int
                        } else {
                            0int
                        }),
                ;
            }
            if qn > usize::MAX as u128 {
                proof {
                    lemma_pow2_pos((t + 1) as nat);
                    assert(pow2((t + 1) as nat) <= pow2(d as nat)) by {
                        if t + 1 < d {
                            lemma_pow2_strictly_increases((t + 1) as nat, d as nat);
                        }
                    }
                    assert(mt as int * pow2(d as nat) > usize::MAX as int * md as int)
                        by (nonlinear_arith)
                        requires
                            mt as int * pow2((t + 1) as nat) == md as int * (qn as int)
                                + rn as int,
                            qn as int > usize::MAX as int,
                            rn as int >= 0,
                            md as int >= 1,
                            mt as int >= 1,
                            pow2((t + 1) as nat) <= pow2(d as nat),
                    ;
                    lemma_ceil_bridge(
                        tv,
                        dv,
                        mt64 as int,
                        et as int,
                        md64 as int,
                        ed as int,
                        usize::MAX as int,
                    );
                }
                return None;
            }
            q = qn;
            rr = rn;
            t = t + 1;
        }
        let extra: u128 = if rr > 0 {
            1
        } else {
            0
        };
        let n = q + extra;
        proof {
            lemma_pow2_pos(d as nat);
            if q == 0 && rr == 0 {
                assert(false) by (nonlinear_arith)
                    requires
                        mt as int * pow2(d as nat) == md as int * (q as int) + rr as int,
                        q as int == 0,
                        rr as int == 0,
                        mt as int >= 1,
                        pow2(d as nat) >= 1,
                ;
            }
        }
        if n > usize::MAX as u128 {
            proof {
                assert(mt as int * pow2(d as nat) > usize::MAX as int * md as int)
                    by (nonlinear_arith)
                    requires
                        mt as int * pow2(d as nat) == md as int * (q as int) + rr as int,
                        q as int == usize::MAX as int,
                        rr as int > 0,
                        md as int >= 1,
                ;
                lemma_ceil_bridge(
                    tv,
                    dv,
                    mt64 as int,
                    et as int,
                    md64 as int,
                    ed as int,
                    usize::MAX as int,
                );
            }
            return None;
        }
        proof {
            assert(mt as int * pow2(d as nat) <= n as int * md as int && !(mt as int * pow2(
                d as nat,
            ) <= (n as int - 1) * md as int)) by (nonlinear_arith)
                requires
                    mt as int * pow2(d as nat) == md as int * (q as int) + rr as int,
                    rr as int >= 0,
                    (rr as int) < (md as int),
                    md as int >= 1,
                    n as int == q as int + (if rr as int > 0 {
                        1int
                    } else {
                        0int
                    }),
            ;
            lemma_ceil_bridge(tv, dv, mt64 as int, et as int, md64 as int, ed as int, n as int);
            lemma_ceil_bridge(
                tv,
                dv,
                mt64 as int,
                et as int,
                md64 as int,
                ed as int,
                n as int - 1,
            );
        }
        Some(n as usize)
    } else {
        let b: i128 = ed - et;
        if b >= 64 {
            proof {
                assert(pow2(64) <= pow2(b as nat)) by {
                    if b > 64 {
                        lemma_pow2_strictly_increases(64, b as nat);
                    }
                }
                assert(mt as int <= 1 * (md as int * pow2(b as nat)) && !(mt as int <= 0 * (
                md as int * pow2(b as nat)))) by (nonlinear_arith)
                    requires
                        1 <= mt as int,
                        (mt as int) < 0x10000000000000000,
                        md as int >= 1,
                        pow2(b as nat) >= 0x10000000000000000,
                ;
                lemma_ceil_bridge(tv, dv, mt64 as int, et as int, md64 as int, ed as int, 1);
                lemma_ceil_bridge(tv, dv, mt64 as int, et as int, md64 as int, ed as int, 0);
            }
            return Some(1);
        }
        let mut den: u128 = md;
        let mut i: i128 = 0;
        proof {
            assert(den as int == md as int * pow2(i as nat)) by (nonlinear_arith)
                requires
                    pow2(i as nat) == 1,
                    den as int == md as int,
            ;
        }
        while i < b
            invariant
                0 <= i <= b,
                den as int == md as int * pow2(i as nat),
                den >= 1,
            decreases b - i,
        {
            proof {
                lemma_pow2_unfold((i + 1) as nat);
                assert(pow2(i as nat) <= pow2(62)) by {
                    if i < 62 {
                        lemma_pow2_strictly_increases(i as nat, 62);
                    }
                }
                assert(den as int * 2 == md as int * pow2((i + 1) as nat) && den as int * 2
                    < 0x4000_0000_0000_0000_0000_0000_0000_0000) by (nonlinear_arith)
                    requires
                        den as int == md as int * pow2(i as nat),
                        pow2((i + 1) as nat) == 2 * pow2(i as nat),
                        (md as int) < 0x8000_0000_0000_0000,
                        pow2(i as nat) <= pow2(62),
                        pow2(62) == 0x4000_0000_0000_0000,
                ;
            }
            den = den * 2;
            i = i + 1;
        }
        proof {
            assert(pow2(b as nat) <= pow2(63)) by {
                if b < 63 {
                    lemma_pow2_strictly_increases(b as nat, 63);
                }
            }
            assert(den as int <= 0x4000_0000_0000_0000_0000_0000_0000_0000) by (nonlinear_arith)
                requires
                    den as int == md as int * pow2(b as nat),
                    (md as int) < 0x8000_0000_0000_0000,
                    pow2(b as nat) <= 0x8000_0000_0000_0000,
            ;
        }
        let sum = mt + den - 1;
        let n = sum / den;
        proof {
            lemma_fundamental_div_mod(sum as int, den as int);
            lemma_mod_bound(sum as int, den as int);
            assert(mt as int <= n as int * (md as int * pow2(b as nat)) && !(mt as int <= (
            n as int - 1) * (md as int * pow2(b as nat))) && n >= 1) by (nonlinear_arith)
                requires
                    sum as int == mt as int + den as int - 1,
                    sum as int == den as int * (n as int) + (sum as int % den as int),
                    0 <= sum as int % den as int,
                    (sum as int % den as int) < (den as int),
                    den as int == md as int * pow2(b as nat),
                    den as int >= 1,
                    mt as int >= 1,
            ;
        }
        if n > usize::MAX as u128 {
            proof {
                assert(!(mt as int <= usize::MAX as int * (md as int * pow2(b as nat))))
                    by (nonlinear_arith)
                    requires
                        !(mt as int <= (n as int - 1) * (md as int * pow2(b as nat))),
                        n as int - 1 >= usize::MAX as int,
                        md as int * pow2(b as nat) >= 1,
                ;
                lemma_ceil_bridge(
                    tv,
                    dv,
                    mt64 as int,
                    et as int,
                    md64 as int,
                    ed as int,
                    usize::MAX as int,
                );
            }
            return None;
        }
        proof {
            lemma_ceil_bridge(tv, dv, mt64 as int, et as int, md64 as int, ed as int, n as int);
            lemma_ceil_bridge(
                tv,
                dv,
                mt64 as int,
                et as int,
                md64 as int,
                ed as int,
                n as int - 1,
            );
        }
        Some(n as usize)
    }
}

/// The sum of the values of the first `i` scalars of a row.
pub open spec fn value_sum(row: Seq<Dyadic>, i: int) -> Rat
    decreases i,
{
    if i <= 0 {
        rat_zero()
    } else {
        rat_add(value_sum(row, i - 1), row[i - 1].value())
    }
}

/// The sum of the first `i` entries of a block row of the average-coupling
/// operator: each entry is a weight divided by the common cluster sum `s`.
pub open spec fn entry_sum(row: Seq<Dyadic>, s: Rat, i: int) -> Rat
    decreases i,
{
    if i <= 0 {
        rat_zero()
    } else {
        rat_add(entry_sum(row, s, i - 1), rat_div(row[i - 1].value(), s))
    }
}

/// The sum of one cluster's averaging weights.
pub open spec fn cluster_weight_sum(m: KuramotoOscillators, k: int) -> Rat {
    value_sum(m.average_weight@[k]@, m.average_weight@[k]@.len() as int)
}

/// The sum of nonnegative scalars is a well-formed nonnegative rational,
/// positive as soon as one summand is.
pub proof fn lemma_value_sum_sign(row: Seq<Dyadic>, i: int)
    requires
        0 <= i <= row.len(),
        forall|j: int| 0 <= j < row.len() ==> (#[trigger] row[j]).mant >= 0,
    ensures
        rat_wf(value_sum(row, i)),
        value_sum(row, i).num >= 0,
        (exists|j: int| 0 <= j < i && (#[trigger] row[j]).mant > 0) ==> value_sum(row, i).num > 0,
    decreases i,
{
    if i > 0 {
        lemma_value_sum_sign(row, i - 1);
        let p = value_sum(row, i - 1);
        let v = row[i - 1].value();
        lemma_value_wf(row[i - 1]);
        lemma_value_sign(row[i - 1]);
        lemma_rat_add_wf(p, v);
        assert(p.num * v.den >= 0 && v.num * p.den >= 0) by (nonlinear_arith)
            requires
                p.num >= 0,
                v.num >= 0,
                p.den > 0,
                v.den > 0,
        ;
        if exists|j: int| 0 <= j < i && (#[trigger] row[j]).mant > 0 {
            let j = choose|j: int| 0 <= j < i && (#[trigger] row[j]).mant > 0;
            if j == i - 1 {
                assert(v.num * p.den > 0) by (nonlinear_arith)
                    requires
                        v.num > 0,
                        p.den > 0,
                ;
            } else {
                assert(0 <= j < i - 1 && (row[j]).mant > 0);
                assert(value_sum(row, i - 1).num > 0);
                assert(p.num * v.den > 0) by (nonlinear_arith)
                    requires
                        p.num > 0,
                        v.den > 0,
                ;
            }
        }
    }
}

/// A block row of entries over the common divisor `s` sums to the row's
/// weight sum divided by `s`.
pub proof fn lemma_entry_sum_div(row: Seq<Dyadic>, s: Rat, i: int)
    requires
        0 <= i <= row.len(),
        rat_wf(s),
        s.num > 0,
    ensures
        rat_wf(entry_sum(row, s, i)),
        rat_eq(entry_sum(row, s, i), rat_div(value_sum(row, i), s)),
        rat_wf(value_sum(row, i)),
    decreases i,
{
    if i <= 0 {
        assert(0 * (1 * s.num) == (0 * s.den) * 1) by (nonlinear_arith);
        assert(rat_eq(rat_zero(), rat_div(rat_zero(), s)));
    } else {
        lemma_entry_sum_div(row, s, i - 1);
        let e_prev = entry_sum(row, s, i - 1);
        let p_prev = value_sum(row, i - 1);
        let v = row[i - 1].value();
        lemma_value_wf(row[i - 1]);
        let d = rat_div(v, s);
        assert(v.den * s.num > 0) by (nonlinear_arith)
            requires
                v.den > 0,
                s.num > 0,
        ;
        assert(rat_wf(d));
        assert(p_prev.den * s.num > 0) by (nonlinear_arith)
            requires
                p_prev.den > 0,
                s.num > 0,
        ;
        assert(rat_wf(rat_div(p_prev, s)));
        lemma_rat_add_wf(e_prev, d);
        lemma_rat_add_wf(p_prev, v);
        lemma_rat_add_wf(rat_div(p_prev, s), d);
        assert(rat_add(p_prev, v).den * s.num > 0) by (nonlinear_arith)
            requires
                rat_add(p_prev, v).den > 0,
                s.num > 0,
        ;
        assert(rat_wf(rat_div(rat_add(p_prev, v), s)));
        // entry_sum(i) == e_prev + v/s == p_prev/s + v/s == (p_prev + v)/s.
        lemma_rat_add_congruence(e_prev, rat_div(p_prev, s), d);
        lemma_rat_div_add(p_prev, v, s);
        lemma_rat_eq_trans(
            rat_add(e_prev, d),
            rat_add(rat_div(p_prev, s), d),
            rat_div(rat_add(p_prev, v), s),
        );
    }
}

/// Cluster average normalization: within each cluster, the entries of one
/// block row of the average-coupling operator sum to one, because each entry
/// is the cluster's weight for that column divided by the sum of exactly
/// those weights.
pub proof fn lemma_cluster_row_sum_one(m: KuramotoOscillators, k: int)
    requires
        m.wf(),
        0 <= k < m.cluster_nodes_num@.len(),
    ensures
        rat_eq(
            entry_sum(
                m.average_weight@[k]@,
                cluster_weight_sum(m, k),
                m.average_weight@[k]@.len() as int,
            ),
            rat_one(),
        ),
{
    let row = m.average_weight@[k]@;
    let len = row.len() as int;
    let s = cluster_weight_sum(m, k);
    assert(has_positive_weight(row));
    let j = choose|j: int| 0 <= j < row.len() && (#[trigger] row[j]).mant > 0;
    assert(0 <= j < len && row[j].mant > 0);
    lemma_value_sum_sign(row, len);
    assert(s.num > 0);
    lemma_entry_sum_div(row, s, len);
    lemma_rat_div_self_one(s);
    assert(s.den * s.num > 0) by (nonlinear_arith)
        requires
            s.den > 0,
            s.num > 0,
    ;
    assert(rat_wf(rat_div(s, s)));
    lemma_rat_eq_trans(entry_sum(row, s, len), rat_div(s, s), rat_one());
}

} // verus!
