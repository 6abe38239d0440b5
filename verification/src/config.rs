//! Simulation configuration and its validation.
//!
//! Three records drive a run: the common integration settings, the network
//! (dimensions, natural frequencies, connectivity), and the control scheme.
//! Each carries a `check` that either accepts the record or reports the first
//! violated invariant, so that an invalid parameter set is rejected before
//! any operator is built.

use crate::rational::rat_eq;
use crate::scalar::Dyadic;
use vstd::prelude::*;

verus! {

/// The configuration invariant that a rejected record violates.
#[derive(Clone, Copy, Debug, PartialEq, Eq, Structural)]
pub enum ValidationError {
    /// The cluster sizes do not sum to the declared dimension.
    ClusterSizesSum,
    /// The natural-frequency vector does not have one entry per node.
    FrequencyLength,
    /// The connectivity matrix does not have one row per node.
    ConnectivityRows,
    /// Some connectivity row does not have one entry per node.
    ConnectivityColumns,
    /// Some connectivity weight is negative.
    NegativeConnectivity,
    /// The connectivity matrix is not symmetric.
    AsymmetricConnectivity,
    /// The forcing-gain vector does not have one entry per input node.
    InputWeightLength,
    /// The forcing-frequency vector does not have one entry per input node.
    InputFrequencyLength,
    /// The averaging weights are not shaped as one row per cluster with one
    /// entry per cluster node.
    AverageWeightShape,
    /// Some forcing gain is negative.
    NegativeInputWeight,
    /// Some averaging weight is negative.
    NegativeAverageWeight,
    /// Every averaging weight of some cluster is zero, so the cluster mean
    /// would divide by zero.
    ZeroClusterWeight,
    /// The integration step is not positive.
    NonPositiveStep,
    /// The simulation horizon is not positive.
    NonPositiveHorizon,
}

/// The sum of the first `i` entries.
pub open spec fn sum_prefix(s: Seq<usize>, i: int) -> int
    decreases i,
{
    if i <= 0 {
        0
    } else {
        sum_prefix(s, i - 1) + s[i - 1]
    }
}

/// The sum of all entries.
pub open spec fn total(s: Seq<usize>) -> int {
    sum_prefix(s, s.len() as int)
}

/// Prefix sums of nonnegative entries grow with the prefix.
pub proof fn lemma_sum_prefix_mono(s: Seq<usize>, i: int, j: int)
    requires
        0 <= i <= j <= s.len(),
    ensures
        sum_prefix(s, i) <= sum_prefix(s, j),
    decreases j - i,
{
    if i < j {
        lemma_sum_prefix_mono(s, i, j - 1);
    }
}

/// Sums the cluster sizes, or reports that the sum does not fit a `usize`.
fn total_size(sizes: &Vec<usize>) -> (r: Option<usize>)
    ensures
        match r {
            Some(t) => t as int == total(sizes@),
            None => total(sizes@) > usize::MAX as int,
        },
{
    let mut acc: usize = 0;
    let mut i: usize = 0;
    while i < sizes.len()
        invariant
            i <= sizes@.len(),
            acc as int == sum_prefix(sizes@, i as int),
        decreases sizes@.len() - i,
    {
        let s = sizes[i];
        if s > usize::MAX - acc {
            proof {
                lemma_sum_prefix_mono(sizes@, i as int + 1, sizes@.len() as int);
            }
            return None;
        }
        acc = acc + s;
        i = i + 1;
    }
    Some(acc)
}

/// Common integration settings, shared by every run.
pub struct CommonParam {
    /// The fixed integration step; must be positive.
    pub dt: Dyadic,
    /// The time horizon; must be positive.
    pub simulation_time: Dyadic,
    /// Scales the spread of the random initial phases.
    pub random_range: Dyadic,
    /// One simulation run is made per seed.
    pub random_seeds: Vec<u64>,
}

/// The first invariant of the common settings that fails, if any.
pub open spec fn common_error(p: CommonParam) -> Option<ValidationError> {
    if p.dt.mant <= 0 {
        Some(ValidationError::NonPositiveStep)
    } else if p.simulation_time.mant <= 0 {
        Some(ValidationError::NonPositiveHorizon)
    } else {
        None
    }
}

impl CommonParam {
    /// Accepts the record or names the first violated invariant.
    pub fn check(&self) -> (r: Result<(), ValidationError>)
        ensures
            r == match common_error(*self) {
                Option::None => Result::<(), ValidationError>::Ok(()),
                Option::Some(e) => Result::<(), ValidationError>::Err(e),
            },
    {
        if !self.dt.is_pos() {
            return Err(ValidationError::NonPositiveStep);
        }
        if !self.simulation_time.is_pos() {
            return Err(ValidationError::NonPositiveHorizon);
        }
        Ok(())
    }
}

/// The oscillator network: node count, clustering, natural frequencies and
/// the weighted connectivity.
pub struct NetworkParam {
    /// Free-form description carried along with the record.
    pub comment: String,
    /// Number of oscillator nodes.
    pub state_dim: usize,
    /// Sizes of the consecutive clusters; they sum to `state_dim`.
    pub cluster_nodes_num: Vec<usize>,
    /// Natural frequency of each node.
    pub frequency: Vec<Dyadic>,
    /// Symmetric nonnegative weight matrix; a zero entry means no edge.
    pub connectivity: Vec<Vec<Dyadic>>,
}

/// The connectivity matrix is square with one row per node.
pub open spec fn connectivity_square(p: NetworkParam) -> bool {
    &&& p.connectivity@.len() == p.state_dim
    &&& forall|i: int|
        0 <= i < p.state_dim ==> (#[trigger] p.connectivity@[i])@.len() == p.state_dim
}

/// Every connectivity weight is at least zero.
pub open spec fn connectivity_nonneg(p: NetworkParam) -> bool {
    forall|i: int, j: int|
        0 <= i < p.state_dim && 0 <= j < p.state_dim ==> (#[trigger] p.connectivity@[i]@[j]).mant
            >= 0
}

/// The connectivity matrix equals its transpose: each weight has exactly the
/// value of its mirror entry, whatever representation the two scalars carry.
pub open spec fn connectivity_symmetric(p: NetworkParam) -> bool {
    forall|i: int, j: int|
        0 <= i < p.state_dim && 0 <= j < p.state_dim ==> rat_eq(
            (#[trigger] p.connectivity@[i]@[j]).value(),
            p.connectivity@[j]@[i].value(),
        )
}

/// The first invariant of the network record that fails, if any.
pub open spec fn network_error(p: NetworkParam) -> Option<ValidationError> {
    if total(p.cluster_nodes_num@) != p.state_dim as int {
        Some(ValidationError::ClusterSizesSum)
    } else if p.frequency@.len() != p.state_dim {
        Some(ValidationError::FrequencyLength)
    } else if !connectivity_square(p) {
        if p.connectivity@.len() != p.state_dim {
            Some(ValidationError::ConnectivityRows)
        } else {
            Some(ValidationError::ConnectivityColumns)
        }
    } else if !connectivity_nonneg(p) {
        Some(ValidationError::NegativeConnectivity)
    } else if !connectivity_symmetric(p) {
        Some(ValidationError::AsymmetricConnectivity)
    } else {
        None
    }
}

/// A network record that every operator builder accepts.
pub open spec fn network_valid(p: NetworkParam) -> bool {
    network_error(p) is None
}

impl NetworkParam {
    /// Accepts the record or names the first violated invariant.
    #[verifier::loop_isolation(false)]
    pub fn check(&self) -> (r: Result<(), ValidationError>)
        ensures
            r == match network_error(*self) {
                Option::None => Result::<(), ValidationError>::Ok(()),
                Option::Some(e) => Result::<(), ValidationError>::Err(e),
            },
    {
        let n = self.state_dim;
        match total_size(&self.cluster_nodes_num) {
            Some(t) => {
                if t != n {
                    return Err(ValidationError::ClusterSizesSum);
                }
            },
            None => {
                return Err(ValidationError::ClusterSizesSum);
            },
        }
        if self.frequency.len() != n {
            return Err(ValidationError::FrequencyLength);
        }
        if self.connectivity.len() != n {
            return Err(ValidationError::ConnectivityRows);
        }
        let mut i: usize = 0;
        while i < n
            invariant
                i <= n,
                n == self.state_dim,
                self.connectivity@.len() == n,
                forall|r: int| 0 <= r < i ==> (#[trigger] self.connectivity@[r])@.len() == n,
            decreases n - i,
        {
            if self.connectivity[i].len() != n {
                assert((self.connectivity@[i as int])@.len() != n);
                assert(!connectivity_square(*self));
                return Err(ValidationError::ConnectivityColumns);
            }
            i = i + 1;
        }
        i = 0;
        while i < n
            invariant
                i <= n,
                n == self.state_dim,
                connectivity_square(*self),
                forall|r: int, c: int|
                    0 <= r < i && 0 <= c < n ==> (#[trigger] self.connectivity@[r]@[c]).mant >= 0,
            decreases n - i,
        {
            let mut j: usize = 0;
            while j < n
                invariant
                    i < n,
                    j <= n,
                    n == self.state_dim,
                    connectivity_square(*self),
                    forall|c: int|
                        0 <= c < j ==> (#[trigger] self.connectivity@[i as int]@[c]).mant >= 0,
                decreases n - j,
            {
                if !self.connectivity[i][j].is_nonneg() {
                    assert((self.connectivity@[i as int]@[j as int]).mant < 0);
                    assert(!connectivity_nonneg(*self));
                    return Err(ValidationError::NegativeConnectivity);
                }
                j = j + 1;
            }
            i = i + 1;
        }
        i = 0;
        while i < n
            invariant
                i <= n,
                n == self.state_dim,
                connectivity_square(*self),
                connectivity_nonneg(*self),
                forall|r: int, c: int|
                    0 <= r < i && 0 <= c < n ==> rat_eq(
                        (#[trigger] self.connectivity@[r]@[c]).value(),
                        self.connectivity@[c]@[r].value(),
                    ),
            decreases n - i,
        {
            let mut j: usize = 0;
            while j < n
                invariant
                    i < n,
                    j <= n,
                    n == self.state_dim,
                    connectivity_square(*self),
                    forall|r: int, c: int|
                        0 <= r < i && 0 <= c < n ==> rat_eq(
                            (#[trigger] self.connectivity@[r]@[c]).value(),
                            self.connectivity@[c]@[r].value(),
                        ),
                    forall|c: int|
                        0 <= c < j ==> rat_eq(
                            (#[trigger] self.connectivity@[i as int]@[c]).value(),
                            self.connectivity@[c]@[i as int].value(),
                        ),
                decreases n - j,
            {
                let a = self.connectivity[i][j];
                let b = self.connectivity[j][i];
                if !a.same_value(&b) {
                    assert(!rat_eq(
                        (self.connectivity@[i as int]@[j as int]).value(),
                        self.connectivity@[j as int]@[i as int].value(),
                    ));
                    assert(!connectivity_symmetric(*self));
                    return Err(ValidationError::AsymmetricConnectivity);
                }
                j = j + 1;
            }
            i = i + 1;
        }
        Ok(())
    }
}

/// The control scheme: regime selector, forcing gains and frequencies, and
/// the per-cluster averaging weights.
pub struct ControlParam {
    /// Free-form description carried along with the record.
    pub comment: String,
    /// Selects the regime: 0 is cluster mean-field feedback, 1 is external
    /// forcing, anything else disables control.
    pub control_type: usize,
    /// Number of controlled nodes; equals the sum of the cluster sizes.
    pub input_dim: usize,
    /// Sizes of the consecutive clusters the control is bound to.
    pub cluster_nodes_num: Vec<usize>,
    /// Per-node forcing gain.
    pub input_weight: Vec<Dyadic>,
    /// Per-node forcing frequency.
    pub input_frequency: Vec<Dyadic>,
    /// Per-cluster averaging weights, one row per cluster, one entry per
    /// cluster node.
    pub average_weight: Vec<Vec<Dyadic>>,
}

/// One averaging row per cluster, each as long as its cluster.
pub open spec fn average_weight_shaped(p: ControlParam) -> bool {
    &&& p.average_weight@.len() == p.cluster_nodes_num@.len()
    &&& forall|k: int|
        0 <= k < p.cluster_nodes_num@.len() ==> (#[trigger] p.average_weight@[k])@.len()
            == p.cluster_nodes_num@[k]
}

/// Every forcing gain is at least zero.
pub open spec fn input_weight_nonneg(p: ControlParam) -> bool {
    forall|i: int|
        0 <= i < p.input_weight@.len() ==> (#[trigger] p.input_weight@[i]).mant >= 0
}

/// Every averaging weight is at least zero.
pub open spec fn average_weight_nonneg(p: ControlParam) -> bool {
    forall|k: int, j: int|
        0 <= k < p.average_weight@.len() && 0 <= j < p.average_weight@[k]@.len() ==> (
        #[trigger] p.average_weight@[k]@[j]).mant >= 0
}

/// The first invariant of the control record that fails, if any.
pub open spec fn control_error(p: ControlParam) -> Option<ValidationError> {
    if total(p.cluster_nodes_num@) != p.input_dim as int {
        Some(ValidationError::ClusterSizesSum)
    } else if p.input_weight@.len() != p.input_dim {
        Some(ValidationError::InputWeightLength)
    } else if p.input_frequency@.len() != p.input_dim {
        Some(ValidationError::InputFrequencyLength)
    } else if !average_weight_shaped(p) {
        Some(ValidationError::AverageWeightShape)
    } else if !input_weight_nonneg(p) {
        Some(ValidationError::NegativeInputWeight)
    } else if !average_weight_nonneg(p) {
        Some(ValidationError::NegativeAverageWeight)
    } else {
        None
    }
}

/// A control record that every operator builder accepts.
pub open spec fn control_valid(p: ControlParam) -> bool {
    control_error(p) is None
}

impl ControlParam {
    /// Accepts the record or names the first violated invariant.
    #[verifier::loop_isolation(false)]
    pub fn check(&self) -> (r: Result<(), ValidationError>)
        ensures
            r == match control_error(*self) {
                Option::None => Result::<(), ValidationError>::Ok(()),
                Option::Some(e) => Result::<(), ValidationError>::Err(e),
            },
    {
        match total_size(&self.cluster_nodes_num) {
            Some(t) => {
                if t != self.input_dim {
                    return Err(ValidationError::ClusterSizesSum);
                }
            },
            None => {
                return Err(ValidationError::ClusterSizesSum);
            },
        }
        if self.input_weight.len() != self.input_dim {
            return Err(ValidationError::InputWeightLength);
        }
        if self.input_frequency.len() != self.input_dim {
            return Err(ValidationError::InputFrequencyLength);
        }
        if self.average_weight.len() != self.cluster_nodes_num.len() {
            return Err(ValidationError::AverageWeightShape);
        }
        let m = self.cluster_nodes_num.len();
        let mut k: usize = 0;
        while k < m
            invariant
                k <= m,
                m == self.cluster_nodes_num@.len(),
                self.average_weight@.len() == m,
                forall|r: int|
                    0 <= r < k ==> (#[trigger] self.average_weight@[r])@.len()
                        == self.cluster_nodes_num@[r],
            decreases m - k,
        {
            if self.average_weight[k].len() != self.cluster_nodes_num[k] {
                assert((self.average_weight@[k as int])@.len() != self.cluster_nodes_num@[k as int]);
                assert(!average_weight_shaped(*self));
                return Err(ValidationError::AverageWeightShape);
            }
            k = k + 1;
        }
        let mut i: usize = 0;
        while i < self.input_weight.len()
            invariant
                i <= self.input_weight@.len(),
                forall|r: int| 0 <= r < i ==> (#[trigger] self.input_weight@[r]).mant >= 0,
            decreases self.input_weight@.len() - i,
        {
            if !self.input_weight[i].is_nonneg() {
                assert((self.input_weight@[i as int]).mant < 0);
                assert(!input_weight_nonneg(*self));
                return Err(ValidationError::NegativeInputWeight);
            }
            i = i + 1;
        }
        k = 0;
        while k < m
            invariant
                k <= m,
                m == self.average_weight@.len(),
                forall|r: int, c: int|
                    0 <= r < k && 0 <= c < self.average_weight@[r]@.len() ==> (
                    #[trigger] self.average_weight@[r]@[c]).mant >= 0,
            decreases m - k,
        {
            let row_len = self.average_weight[k].len();
            let mut j: usize = 0;
            while j < row_len
                invariant
                    k < m,
                    m == self.average_weight@.len(),
                    row_len == self.average_weight@[k as int]@.len(),
                    j <= row_len,
                    forall|c: int|
                        0 <= c < j ==> (#[trigger] self.average_weight@[k as int]@[c]).mant >= 0,
                decreases row_len - j,
            {
                if !self.average_weight[k][j].is_nonneg() {
                    assert((self.average_weight@[k as int]@[j as int]).mant < 0);
                    assert(!average_weight_nonneg(*self));
                    return Err(ValidationError::NegativeAverageWeight);
                }
                j = j + 1;
            }
            k = k + 1;
        }
        Ok(())
    }
}

} // verus!
