use kuramoto::config::{CommonParam, ControlParam, NetworkParam, ValidationError};
use kuramoto::delay::DelayBuffer;
use kuramoto::model::{
    step_count, ControlRegime, DelayedKuramotoOscillators, DerivativeTerms, KuramotoOscillators,
};
use kuramoto::scalar::Dyadic;

fn dy(m: i64, e: i64) -> Dyadic {
    Dyadic::new(m, e)
}

fn to_f64(d: &Dyadic) -> f64 {
    d.mant as f64 * (d.exp as f64).exp2()
}

fn network3(w1: Dyadic, w2: Dyadic) -> NetworkParam {
    let z = dy(0, 0);
    NetworkParam {
        comment: String::new(),
        state_dim: 3,
        cluster_nodes_num: vec![3],
        frequency: vec![dy(1, 0), dy(1, 0), dy(1, 0)],
        connectivity: vec![vec![z, w1, z], vec![w1, z, w2], vec![z, w2, z]],
    }
}

fn control3(control_type: usize, average_weight: Vec<i64>) -> ControlParam {
    ControlParam {
        comment: String::new(),
        control_type,
        input_dim: 3,
        cluster_nodes_num: vec![3],
        input_weight: vec![dy(1, 0), dy(1, 0), dy(1, 0)],
        input_frequency: vec![dy(3, 0), dy(3, 0), dy(3, 0)],
        average_weight: vec![average_weight.into_iter().map(|w| dy(w, 0)).collect()],
    }
}

#[test]
fn scalar_canonical_form() {
    assert_eq!(dy(4, 0), dy(1, 2));
    assert_eq!(dy(-6, -1), dy(-3, 0));
    assert_eq!(dy(0, 9), dy(0, 0));
    assert!(dy(3, -2).eq_val(&dy(3, -2)));
    assert!(!dy(3, -2).eq_val(&dy(3, -1)));
    assert!(dy(5, 0).is_pos());
    assert!(dy(0, 0).is_nonneg());
    assert!(!dy(-1, 3).is_nonneg());
    assert!(dy(0, 0).is_zero());
}

#[test]
fn scalar_values_match_floats() {
    assert_eq!(to_f64(&dy(3, -2)), 0.75);
    assert_eq!(to_f64(&dy(-5, 1)), -10.0);
}

#[test]
fn network_check_accepts_valid() {
    let p = network3(dy(2, 0), dy(1, -1));
    assert!(p.check().is_ok());
}

#[test]
fn network_check_rejects_asymmetric() {
    let mut p = network3(dy(2, 0), dy(1, -1));
    p.connectivity[0][1] = dy(3, 0);
    assert_eq!(p.check(), Err(ValidationError::AsymmetricConnectivity));
}

#[test]
fn network_check_rejects_negative() {
    let p = network3(dy(-2, 0), dy(1, 0));
    assert_eq!(p.check(), Err(ValidationError::NegativeConnectivity));
}

#[test]
fn self_coupling_accepted_and_ignored() {
    // A nonzero diagonal entry passes validation; only the strict upper
    // triangle yields incidence columns, so it adds no edge.
    let mut p = network3(dy(2, 0), dy(1, 0));
    p.connectivity[1][1] = dy(5, 0);
    assert!(p.check().is_ok());
    let c = control3(0, vec![1, 1, 1]);
    let m = KuramotoOscillators::new(&p, &c).unwrap();
    assert_eq!(m.edges, vec![(0, 1), (1, 2)]);
}

#[test]
fn symmetry_compares_values_not_representations() {
    // 2*2^0 and 1*2^1 are the same weight in different representations.
    let mut p = network3(dy(2, 0), dy(1, 0));
    p.connectivity[0][1] = Dyadic { mant: 2, exp: 0 };
    p.connectivity[1][0] = Dyadic { mant: 1, exp: 1 };
    assert!(p.check().is_ok());
}

#[test]
fn step_count_is_exact_ceiling() {
    // 10 / 0.25, ceil(10/3), ceil(3/4), a ratio below one, and a count that
    // cannot fit a machine word.
    assert_eq!(step_count(&dy(1, -2), &dy(10, 0)), Some(40));
    assert_eq!(step_count(&dy(3, 0), &dy(10, 0)), Some(4));
    assert_eq!(step_count(&dy(1, 2), &dy(3, 0)), Some(1));
    assert_eq!(step_count(&dy(1, 100), &dy(1, 0)), Some(1));
    assert_eq!(step_count(&dy(1, 0), &dy(7, 0)), Some(7));
    assert_eq!(step_count(&dy(1, -100), &dy(1, 0)), None);
}

#[test]
fn network_check_rejects_bad_cluster_sum() {
    let mut p = network3(dy(2, 0), dy(1, 0));
    p.cluster_nodes_num = vec![2];
    assert_eq!(p.check(), Err(ValidationError::ClusterSizesSum));
}

#[test]
fn network_check_rejects_bad_shape() {
    let mut p = network3(dy(2, 0), dy(1, 0));
    p.connectivity[2].pop();
    assert_eq!(p.check(), Err(ValidationError::ConnectivityColumns));
    p.connectivity.pop();
    assert_eq!(p.check(), Err(ValidationError::ConnectivityRows));
}

#[test]
fn control_check_rejects_negative_average_weight() {
    let c = control3(0, vec![1, -1, 2]);
    assert_eq!(c.check(), Err(ValidationError::NegativeAverageWeight));
}

#[test]
fn control_check_rejects_bad_shape() {
    let c = control3(0, vec![1, 1]);
    assert_eq!(c.check(), Err(ValidationError::AverageWeightShape));
}

#[test]
fn common_check_rejects_nonpositive_step() {
    let c = CommonParam {
        dt: dy(0, 0),
        simulation_time: dy(10, 0),
        random_range: dy(1, 0),
        random_seeds: vec![1, 2],
    };
    assert_eq!(c.check(), Err(ValidationError::NonPositiveStep));
    let c2 = CommonParam {
        dt: dy(1, -7),
        simulation_time: dy(10, 0),
        random_range: dy(1, 0),
        random_seeds: vec![1, 2],
    };
    assert!(c2.check().is_ok());
}

#[test]
fn incidence_two_edges() {
    // A three-node chain with edges (0,1) and (1,2): the incidence matrix has
    // exactly two columns, each with one +1 and one -1 at the endpoints, and
    // Inc*W*IncT is the weighted graph Laplacian.
    let w1 = 2.0;
    let w2 = 0.5;
    let p = network3(dy(2, 0), dy(1, -1));
    let c = control3(0, vec![1, 1, 2]);
    assert!(p.check().is_ok());
    assert!(c.check().is_ok());
    let m = KuramotoOscillators::new(&p, &c).unwrap();
    assert_eq!(m.edges, vec![(0, 1), (1, 2)]);
    assert_eq!(to_f64(&m.edge_weights[0]), w1);
    assert_eq!(to_f64(&m.edge_weights[1]), w2);
    let inc = m.incidence();
    assert_eq!(inc, vec![vec![1, 0], vec![-1, 1], vec![0, -1]]);
    // Laplacian from the produced operators.
    let conn = [[0.0, w1, 0.0], [w1, 0.0, w2], [0.0, w2, 0.0]];
    for i in 0..3 {
        for j in 0..3 {
            let mut l = 0.0;
            for e in 0..2 {
                let w = to_f64(&m.edge_weights[e]);
                l += inc[i][e] as f64 * w * inc[j][e] as f64;
            }
            if i == j {
                let row_sum: f64 = conn[i].iter().sum();
                assert_eq!(l, row_sum);
            } else {
                assert_eq!(l, -conn[i][j]);
            }
        }
    }
}

#[test]
fn zero_coupling_disabled_is_identity() {
    // All-zero connectivity with control disabled: no edges, and the
    // derivative form is the bare state.
    let p = network3(dy(0, 0), dy(0, 0));
    let c = control3(7, vec![1, 1, 1]);
    let m = KuramotoOscillators::new(&p, &c).unwrap();
    assert!(m.edges.is_empty());
    assert_eq!(m.regime(), ControlRegime::Disabled);
    assert_eq!(m.derivative_terms(), DerivativeTerms::Identity);
    let d: DelayedKuramotoOscillators<Vec<f64>> =
        DelayedKuramotoOscillators::new(&p, &c, 4).unwrap();
    assert_eq!(d.derivative_terms(0), DerivativeTerms::Identity);
    assert_eq!(d.derivative_terms(9), DerivativeTerms::Identity);
}

#[test]
fn regimes_select_terms() {
    let p = network3(dy(2, 0), dy(1, 0));
    let m0 = KuramotoOscillators::new(&p, &control3(0, vec![1, 1, 1])).unwrap();
    assert_eq!(m0.regime(), ControlRegime::ClusterFeedback);
    assert_eq!(m0.derivative_terms(), DerivativeTerms::ClusterMean);
    let m1 = KuramotoOscillators::new(&p, &control3(1, vec![1, 1, 1])).unwrap();
    assert_eq!(m1.regime(), ControlRegime::ExternalForcing);
    assert_eq!(m1.derivative_terms(), DerivativeTerms::Forcing);
}

#[test]
fn zero_cluster_weight_rejected() {
    let p = network3(dy(2, 0), dy(1, 0));
    let c = control3(0, vec![0, 0, 0]);
    assert!(p.check().is_ok());
    assert!(c.check().is_ok());
    assert_eq!(
        KuramotoOscillators::new(&p, &c).err(),
        Some(ValidationError::ZeroClusterWeight)
    );
}

#[test]
fn cluster_average_normalization() {
    // Weights [1, 1, 2]: the block entries are 1/4, 1/4, 2/4, and each block
    // row sums to exactly one.
    let p = network3(dy(2, 0), dy(1, 0));
    let c = control3(0, vec![1, 1, 2]);
    let m = KuramotoOscillators::new(&p, &c).unwrap();
    let row = &m.average_weight[0];
    let sum: f64 = row.iter().map(to_f64).sum();
    assert_eq!(sum, 4.0);
    let entries: Vec<f64> = row.iter().map(|w| to_f64(w) / sum).collect();
    assert_eq!(entries, vec![0.25, 0.25, 0.5]);
    let row_sum: f64 = entries.iter().sum();
    assert_eq!(row_sum, 1.0);
    assert_eq!(m.cluster_offsets, vec![0, 3]);
}

#[test]
fn delay_buffer_timing() {
    // delay_step = 3: read at step 3 yields the state of step 0, read at
    // step 4 yields the state of step 1 (ring overwrite).
    let mut buf: DelayBuffer<i64> = DelayBuffer::new(3);
    buf.push(100, 0);
    buf.push(101, 1);
    buf.push(102, 2);
    assert_eq!(*buf.read(3), 100);
    buf.push(103, 3);
    assert_eq!(*buf.read(4), 101);
    buf.push(104, 4);
    assert_eq!(*buf.read(5), 102);
}

#[test]
fn delayed_model_warmup_and_read() {
    let p = network3(dy(2, 0), dy(1, 0));
    let c = control3(0, vec![1, 1, 1]);
    let mut m: DelayedKuramotoOscillators<Vec<f64>> =
        DelayedKuramotoOscillators::new(&p, &c, 3).unwrap();
    assert_eq!(m.derivative_terms(0), DerivativeTerms::PairwiseOnly);
    assert_eq!(m.derivative_terms(2), DerivativeTerms::PairwiseOnly);
    assert_eq!(m.derivative_terms(3), DerivativeTerms::DelayedClusterMean);
    assert_eq!(m.derivative_terms(9), DerivativeTerms::DelayedClusterMean);
    for k in 0..3 {
        m.push_buffer(vec![k as f64; 3], k);
    }
    assert_eq!(*m.delayed_phase(3), vec![0.0, 0.0, 0.0]);
    m.push_buffer(vec![3.0; 3], 3);
    assert_eq!(*m.delayed_phase(4), vec![1.0, 1.0, 1.0]);
}

#[test]
fn delayed_model_forcing_ignores_buffer() {
    let p = network3(dy(2, 0), dy(1, 0));
    let c = control3(1, vec![1, 1, 1]);
    let m: DelayedKuramotoOscillators<Vec<f64>> =
        DelayedKuramotoOscillators::new(&p, &c, 5).unwrap();
    assert_eq!(m.derivative_terms(0), DerivativeTerms::Forcing);
    assert_eq!(m.derivative_terms(100), DerivativeTerms::Forcing);
}

#[test]
fn model_copies_configuration() {
    let p = network3(dy(2, 0), dy(1, 0));
    let c = control3(0, vec![1, 1, 1]);
    let m = KuramotoOscillators::new(&p, &c).unwrap();
    assert_eq!(m.state_dim, 3);
    assert_eq!(m.omega, p.frequency);
    assert_eq!(m.input_weight, c.input_weight);
    assert_eq!(m.input_omega, c.input_frequency);
    assert_eq!(m.cluster_nodes_num, p.cluster_nodes_num);
}
