use mlp::back_propagation::{apply_derivs, calculate_derivs};
use mlp::deriv_buffer::DerivBuffer;
use mlp::forward::forward_unchecked;
use mlp::gym::{partition_samples, worker, Gym, WorkerResult};
use mlp::nn::{NetworkError, NeuralNetwork};
use mlp::param_buffer::ParamBuffer;
use mlp::result_buffer::ResultBuffer;
use mlp::scalar::{Activation, Arithmetic};
use mlp::topology::{LayerDescription, Topology};

struct F32;

impl Arithmetic<f32> for F32 {
    fn spec_zero(&self) -> f32 {
        self.zero()
    }
    fn spec_plus(&self, a: f32, b: f32) -> f32 {
        self.plus(a, b)
    }
    fn spec_minus(&self, a: f32, b: f32) -> f32 {
        self.minus(a, b)
    }
    fn spec_times(&self, a: f32, b: f32) -> f32 {
        self.times(a, b)
    }
    fn spec_divide_by_count(&self, a: f32, n: usize) -> f32 {
        self.divide_by_count(a, n)
    }
    fn zero(&self) -> f32 {
        0.0
    }
    fn plus(&self, a: f32, b: f32) -> f32 {
        a + b
    }
    fn minus(&self, a: f32, b: f32) -> f32 {
        a - b
    }
    fn times(&self, a: f32, b: f32) -> f32 {
        a * b
    }
    fn divide_by_count(&self, a: f32, n: usize) -> f32 {
        a / n as f32
    }
}

struct F64;

impl Arithmetic<f64> for F64 {
    fn spec_zero(&self) -> f64 {
        self.zero()
    }
    fn spec_plus(&self, a: f64, b: f64) -> f64 {
        self.plus(a, b)
    }
    fn spec_minus(&self, a: f64, b: f64) -> f64 {
        self.minus(a, b)
    }
    fn spec_times(&self, a: f64, b: f64) -> f64 {
        self.times(a, b)
    }
    fn spec_divide_by_count(&self, a: f64, n: usize) -> f64 {
        self.divide_by_count(a, n)
    }
    fn zero(&self) -> f64 {
        0.0
    }
    fn plus(&self, a: f64, b: f64) -> f64 {
        a + b
    }
    fn minus(&self, a: f64, b: f64) -> f64 {
        a - b
    }
    fn times(&self, a: f64, b: f64) -> f64 {
        a * b
    }
    fn divide_by_count(&self, a: f64, n: usize) -> f64 {
        a / n as f64
    }
}

#[derive(Clone, Copy)]
enum Phi {
    Identity,
    Sigmoid,
    Tanh,
}

impl Activation<f32> for Phi {
    fn spec_apply(&self, x: f32) -> f32 {
        self.apply(x)
    }
    fn spec_deriv(&self, x: f32) -> f32 {
        self.deriv(x)
    }
    fn apply(&self, x: f32) -> f32 {
        match self {
            Phi::Identity => x,
            Phi::Sigmoid => 1.0 / (1.0 + (-x).exp()),
            Phi::Tanh => x.tanh(),
        }
    }
    fn deriv(&self, x: f32) -> f32 {
        match self {
            Phi::Identity => 1.0,
            Phi::Sigmoid => {
                let s = 1.0 / (1.0 + (-x).exp());
                s * (1.0 - s)
            }
            Phi::Tanh => 1.0 - x.tanh() * x.tanh(),
        }
    }
}

impl Activation<f64> for Phi {
    fn spec_apply(&self, x: f64) -> f64 {
        self.apply(x)
    }
    fn spec_deriv(&self, x: f64) -> f64 {
        self.deriv(x)
    }
    fn apply(&self, x: f64) -> f64 {
        match self {
            Phi::Identity => x,
            Phi::Sigmoid => 1.0 / (1.0 + (-x).exp()),
            Phi::Tanh => x.tanh(),
        }
    }
    fn deriv(&self, x: f64) -> f64 {
        match self {
            Phi::Identity => 1.0,
            Phi::Sigmoid => {
                let s = 1.0 / (1.0 + (-x).exp());
                s * (1.0 - s)
            }
            Phi::Tanh => 1.0 - x.tanh() * x.tanh(),
        }
    }
}

fn shape(n_inputs: usize, layers: &[(usize, Phi)]) -> Topology<Phi> {
    Topology::new(
        n_inputs,
        layers.iter().map(|&(n, phi)| LayerDescription::new(n, phi)).collect(),
    )
}

/// Fixed, varied starting values in (-0.5, 0.5).
fn spread(n: usize, seed: u32) -> Vec<f32> {
    let mut state = seed;
    (0..n)
        .map(|_| {
            state = state.wrapping_mul(1_103_515_245).wrapping_add(12_345);
            ((state >> 8) % 1000) as f32 / 1000.0 - 0.5
        })
        .collect()
}

const XOR: [f32; 12] = [0., 0., 0., 1., 0., 1., 0., 1., 1., 1., 1., 0.];

#[test]
fn forward_of_identity_layer_is_affine() {
    let mut nn = NeuralNetwork::new(shape(2, &[(1, Phi::Identity)]), 0.0f32);
    nn.load_params(&[2.0, 3.0, 1.0]).unwrap();
    assert_eq!(nn.forward(&F32, &[1.0, 1.0]).unwrap(), vec![6.0]);
    assert_eq!(nn.forward(&F32, &[2.0, -1.0]).unwrap(), vec![2.0]);
    let l = nn.results_layer(0).unwrap();
    assert_eq!(l.z, &[2.0][..]);
    assert_eq!(l.a, &[2.0][..]);
}

#[test]
fn forward_chains_layers_in_order() {
    // Layer 0: z = [x0 + 2 x1, -x1 + 1]; layer 1: 3 a0 - a1 + 0.5.
    let mut nn = NeuralNetwork::new(shape(2, &[(2, Phi::Identity), (1, Phi::Identity)]), 0.0f32);
    nn.load_params(&[1.0, 2.0, 0.0, -1.0, 0.0, 1.0, 3.0, -1.0, 0.5]).unwrap();
    // a0 = [1 + 4, -2 + 1] = [5, -1]; out = 15 + 1 + 0.5.
    assert_eq!(nn.forward(&F32, &[1.0, 2.0]).unwrap(), vec![16.5]);
    assert_eq!(nn.results_layer(0).unwrap().a, &[5.0, -1.0][..]);
}

#[test]
fn forward_applies_the_activation() {
    let mut nn = NeuralNetwork::new(shape(1, &[(1, Phi::Sigmoid)]), 0.0f32);
    assert_eq!(nn.forward(&F32, &[3.0]).unwrap(), vec![0.5]);
    let mut nn = NeuralNetwork::new(shape(1, &[(1, Phi::Tanh)]), 0.0f32);
    nn.load_params(&[1.0, 0.0]).unwrap();
    assert_eq!(nn.forward(&F32, &[0.5]).unwrap(), vec![0.5f32.tanh()]);
}

#[test]
fn forward_rejects_wrong_input_length() {
    let mut nn = NeuralNetwork::new(shape(2, &[(1, Phi::Identity)]), 0.0f32);
    assert_eq!(
        nn.forward(&F32, &[1.0, 2.0, 3.0]),
        Err(NetworkError::InputDimension { expected: 2, got: 3 })
    );
}

#[test]
fn load_params_rejects_wrong_length_and_keeps_params() {
    let mut nn = NeuralNetwork::new(shape(2, &[(2, Phi::Sigmoid), (1, Phi::Sigmoid)]), 0.0f32);
    assert_eq!(
        nn.load_params(&[1.0; 8]),
        Err(NetworkError::ParamLength { expected: 9, got: 8 })
    );
    assert_eq!(nn.params_as_slice(), &[0.0f32; 9][..]);
    assert_eq!(nn.load_params(&[1.0; 9]), Ok(()));
    assert_eq!(nn.params_as_slice(), &[1.0f32; 9][..]);
}

#[test]
fn network_accessors() {
    let nn = NeuralNetwork::new(shape(2, &[(3, Phi::Sigmoid), (1, Phi::Sigmoid)]), 0.0f32);
    assert_eq!(nn.n_inputs(), 2);
    assert_eq!(nn.n_outputs(), 1);
    assert_eq!(nn.topology().n_layers(), 2);
    assert_eq!(nn.params().len(), 13);
    assert_eq!(nn.params_layer(1).unwrap().w.len(), 3);
    assert!(nn.params_layer(2).is_none());
    assert!(nn.results_layer(2).is_none());
    assert_eq!(nn.results().n_layers(), 2);
    let (params, results) = nn.into_raw_parts();
    let nn = NeuralNetwork::from_raw_parts(
        shape(2, &[(3, Phi::Sigmoid), (1, Phi::Sigmoid)]),
        params,
        results,
    );
    assert_eq!(nn.params_as_slice().len(), 13);
}

#[test]
fn loss_sums_squared_errors_over_samples() {
    let mut nn = NeuralNetwork::new(shape(1, &[(1, Phi::Identity)]), 0.0f32);
    nn.load_params(&[2.0, 0.0]).unwrap();
    // Outputs 2 and 4 against targets 1 and 1: 1 + 9.
    assert_eq!(nn.loss(&F32, &[1.0, 1.0, 2.0, 1.0]), 10.0);
    assert_eq!(nn.loss(&F32, &[]), 0.0);
}

#[test]
fn forward_is_deterministic() {
    let t = shape(3, &[(4, Phi::Tanh), (2, Phi::Sigmoid)]);
    let mut nn = NeuralNetwork::new(t, 0.0f32);
    nn.load_params(&spread(26, 7)).unwrap();
    let first = nn.forward(&F32, &[0.3, -0.7, 0.9]).unwrap();
    let second = nn.forward(&F32, &[0.3, -0.7, 0.9]).unwrap();
    assert_eq!(
        first.iter().map(|x| x.to_bits()).collect::<Vec<_>>(),
        second.iter().map(|x| x.to_bits()).collect::<Vec<_>>()
    );
}

#[test]
fn gradients_of_one_sample_by_hand() {
    // One identity neuron, w = 2, b = 1, x = 3, y = 4: a = 7, e = 3.
    let t = shape(1, &[(1, Phi::Identity)]);
    let mut params = ParamBuffer::create(&t, 0.0f32);
    params.set(0, 2.0);
    params.set(1, 1.0);
    let mut results = ResultBuffer::create(&t, 0.0f32);
    let mut derivs = DerivBuffer::create(&t, 0.0f32);
    let loss = calculate_derivs(&F32, &t, &params, &mut results, &mut derivs, &[3.0, 4.0]);
    assert_eq!(loss, 9.0);
    assert_eq!(derivs.params(), &[9.0, 3.0][..]);
    apply_derivs(&F32, &mut params, &derivs, 0.5);
    assert_eq!(params.as_slice(), &[-2.5, -0.5][..]);
}

#[test]
fn gradients_are_averaged_over_samples() {
    // w = 1, b = 0: samples (1 -> 0) and (2 -> 0) have errors 1 and 2.
    let t = shape(1, &[(1, Phi::Identity)]);
    let mut params = ParamBuffer::create(&t, 0.0f32);
    params.set(0, 1.0);
    let mut results = ResultBuffer::create(&t, 0.0f32);
    let mut derivs = DerivBuffer::create(&t, 0.0f32);
    let loss = calculate_derivs(&F32, &t, &params, &mut results, &mut derivs, &[1.0, 0.0, 2.0, 0.0]);
    assert_eq!(loss, 2.5);
    // dw = (1*1 + 2*2) / 2, db = (1 + 2) / 2.
    assert_eq!(derivs.params(), &[2.5, 1.5][..]);
    // The accumulators start from zero on every call.
    let loss = calculate_derivs(&F32, &t, &params, &mut results, &mut derivs, &[1.0, 0.0, 2.0, 0.0]);
    assert_eq!(loss, 2.5);
    assert_eq!(derivs.params(), &[2.5, 1.5][..]);
}

#[test]
fn error_signal_reaches_the_first_layer() {
    // x -> 2x -> 3(2x): with x = 1, y = 0 the output error is 6.
    let t = shape(1, &[(1, Phi::Identity), (1, Phi::Identity)]);
    let mut params = ParamBuffer::create(&t, 0.0f32);
    params.set(0, 2.0);
    params.set(2, 3.0);
    let mut results = ResultBuffer::create(&t, 0.0f32);
    let mut derivs = DerivBuffer::create(&t, 0.0f32);
    let loss = calculate_derivs(&F32, &t, &params, &mut results, &mut derivs, &[1.0, 0.0]);
    assert_eq!(loss, 36.0);
    // Output layer: dw = 6 * 2, db = 6; da_0 = 6 * 3; first layer: dw = 18 * 1, db = 18.
    assert_eq!(derivs.params(), &[18.0, 18.0, 12.0, 6.0][..]);
    assert_eq!(derivs.layer(0).unwrap().da, &[18.0][..]);
}

fn f64_loss(t: &Topology<Phi>, p: &[f64], x: &[f64], y: &[f64]) -> f64 {
    let mut params = ParamBuffer::create(t, 0.0f64);
    for (i, &v) in p.iter().enumerate() {
        params.set(i, v);
    }
    let mut results = ResultBuffer::create(t, 0.0f64);
    forward_unchecked(&F64, x, t, &params, &mut results);
    let out = results.layer(results.n_layers() - 1).unwrap().a;
    out.iter().zip(y).map(|(a, y)| (a - y) * (a - y)).sum()
}

#[test]
fn gradients_match_finite_differences() {
    // The kernels take the error as `a - y`, so they compute the gradient of half the squared
    // error; compare with the central difference of that.
    let t = shape(2, &[(3, Phi::Sigmoid), (2, Phi::Tanh)]);
    let p: Vec<f64> = spread(17, 3).iter().map(|&v| v as f64 * 2.0).collect();
    let x = [0.4f64, -0.8];
    let y = [0.3f64, -0.2];
    let mut params = ParamBuffer::create(&t, 0.0f64);
    for (i, &v) in p.iter().enumerate() {
        params.set(i, v);
    }
    let mut results = ResultBuffer::create(&t, 0.0f64);
    let mut derivs = DerivBuffer::create(&t, 0.0f64);
    let sample = [x[0], x[1], y[0], y[1]];
    calculate_derivs(&F64, &t, &params, &mut results, &mut derivs, &sample);
    let h = 1e-4;
    for i in 0..p.len() {
        let mut up = p.clone();
        up[i] += h;
        let mut down = p.clone();
        down[i] -= h;
        let numeric = (f64_loss(&t, &up, &x, &y) - f64_loss(&t, &down, &x, &y)) / (2.0 * h) / 2.0;
        let analytic = derivs.params()[i];
        let scale = numeric.abs().max(analytic.abs()).max(1e-3);
        assert!(
            (numeric - analytic).abs() / scale < 1e-3,
            "parameter {i}: numeric {numeric}, analytic {analytic}"
        );
    }
}

#[test]
fn training_and_reduces_loss() {
    let and: [f32; 12] = [0., 0., 0., 1., 0., 0., 0., 1., 0., 1., 1., 1.];
    let nn = NeuralNetwork::new(shape(2, &[(1, Phi::Sigmoid)]), 0.0f32);
    let mut gym = Gym::new(nn);
    let first = gym.train_single_threaded(&F32, 2.0, &and);
    let mut loss = first;
    let mut epochs = 1;
    while loss >= 0.01 && epochs < 100_000 {
        loss = gym.train_single_threaded(&F32, 2.0, &and);
        epochs += 1;
    }
    assert!(first > 0.2);
    assert!(loss < 0.01, "loss {loss} after {epochs} epochs");
}

#[test]
fn gym_forward_uses_its_own_results() {
    let mut nn = NeuralNetwork::new(shape(2, &[(1, Phi::Identity)]), 0.0f32);
    nn.load_params(&[1.0, 1.0, 0.0]).unwrap();
    let mut gym = Gym::new(nn);
    assert_eq!(gym.forward(&F32, &[2.0, 3.0]).unwrap(), vec![5.0]);
    assert_eq!(
        gym.forward(&F32, &[2.0]),
        Err(NetworkError::InputDimension { expected: 2, got: 1 })
    );
    assert_eq!(gym.nn().params_as_slice(), &[1.0, 1.0, 0.0][..]);
    let nn = gym.finish();
    assert_eq!(nn.n_inputs(), 2);
}

#[test]
fn params_round_trip_reproduces_outputs() {
    let t = || shape(2, &[(2, Phi::Sigmoid), (1, Phi::Sigmoid)]);
    let mut a = NeuralNetwork::new(t(), 0.0f32);
    a.load_params(&spread(9, 11)).unwrap();
    let mut gym = Gym::new(a);
    for _ in 0..100 {
        gym.train_single_threaded(&F32, 0.5, &XOR);
    }
    let mut a = gym.finish();
    let dump: Vec<f32> = a.params_as_slice().to_vec();
    let mut b = NeuralNetwork::new(t(), 0.0f32);
    assert_eq!(b.load_params(&dump), Ok(()));
    for input in [[0.0f32, 0.0], [1.0, 0.0], [0.25, -3.0]] {
        let out_a = a.forward(&F32, &input).unwrap();
        let out_b = b.forward(&F32, &input).unwrap();
        assert_eq!(out_a[0].to_bits(), out_b[0].to_bits());
    }
}

#[test]
fn one_chunk_matches_single_threaded_training() {
    let t = || shape(2, &[(3, Phi::Tanh), (1, Phi::Sigmoid)]);
    let start = spread(13, 5);
    let mut single = NeuralNetwork::new(t(), 0.0f32);
    single.load_params(&start).unwrap();
    let mut single = Gym::new(single);
    let loss_single = single.train_single_threaded(&F32, 0.3, &XOR);

    let mut chunked = NeuralNetwork::new(t(), 0.0f32);
    chunked.load_params(&start).unwrap();
    let mut chunked = Gym::new(chunked);
    let ranges = partition_samples(4, 1);
    let results: Vec<WorkerResult<f32>> = ranges
        .iter()
        .map(|&(first, end)| {
            worker(&F32, chunked.nn().topology(), chunked.nn().params(), &XOR, first, end)
        })
        .collect();
    let loss_chunked = chunked.merge_worker_results(&F32, 0.3, &results);

    assert_eq!(loss_single.to_bits(), loss_chunked.to_bits());
    let bits = |g: &Gym<f32, Phi>| {
        g.nn().params_as_slice().iter().map(|x| x.to_bits()).collect::<Vec<_>>()
    };
    assert_eq!(bits(&single), bits(&chunked));
}

#[test]
fn chunks_apply_one_after_another() {
    // Two chunks of one sample each: each chunk's gradient is applied in turn, with the same
    // eta, and the losses are averaged.
    let t = || shape(1, &[(1, Phi::Identity)]);
    let mut nn = NeuralNetwork::new(t(), 0.0f32);
    nn.load_params(&[1.0, 0.0]).unwrap();
    let mut gym = Gym::new(nn);
    let samples = [1.0f32, 0.0, 2.0, 0.0];
    let ranges = partition_samples(2, 2);
    assert_eq!(ranges, vec![(0, 1), (1, 2)]);
    let results: Vec<WorkerResult<f32>> = ranges
        .iter()
        .map(|&(first, end)| worker(&F32, gym.nn().topology(), gym.nn().params(), &samples, first, end))
        .collect();
    assert_eq!(results[0].loss, 1.0);
    assert_eq!(results[1].loss, 4.0);
    assert_eq!(results[1].derivs.params(), &[4.0, 2.0][..]);
    let loss = gym.merge_worker_results(&F32, 0.25, &results);
    assert_eq!(loss, 2.5);
    // w: 1 - 0.25 * 1 - 0.25 * 4; b: 0 - 0.25 * 1 - 0.25 * 2.
    assert_eq!(gym.nn().params_as_slice(), &[-0.25, -0.75][..]);
}

#[test]
fn xor_trains_to_its_labels() {
    let mut nn = NeuralNetwork::new(shape(2, &[(2, Phi::Sigmoid), (1, Phi::Sigmoid)]), 0.0f32);
    nn.load_params(&[0.08, -0.06, -0.09, 0.07, 0.02, -0.03, 0.05, -0.04, 0.01]).unwrap();
    let mut gym = Gym::new(nn);
    for _ in 0..1_000_000 {
        gym.train_single_threaded(&F32, 0.25, &XOR);
    }
    let mut nn = gym.finish();
    let loss = nn.loss(&F32, &XOR);
    assert!(loss < 0.05, "loss {loss}");
    for sample in XOR.chunks(3) {
        let out = nn.forward(&F32, &sample[0..2]).unwrap();
        assert!((out[0] - sample[2]).abs() < 0.1, "{:?} gave {}", sample, out[0]);
    }
}

#[test]
fn network_layer_views_reach_its_buffers() {
    let mut nn = NeuralNetwork::new(shape(2, &[(2, Phi::Identity), (1, Phi::Identity)]), 0.0f32);
    {
        let l = nn.params_layer_mut(1).unwrap();
        l.w[0] = 1.0;
        l.w[1] = 1.0;
    }
    {
        let [first, _second] = nn.params_layer_disjoint_mut([0, 1]).unwrap();
        first.w[0] = 1.0;
        first.w[3] = 1.0;
    }
    assert_eq!(nn.forward(&F32, &[2.0, 3.0]).unwrap(), vec![5.0]);
    {
        let l = nn.results_layer_mut(1).unwrap();
        l.a[0] = 9.0;
    }
    assert_eq!(nn.results_layer(1).unwrap().a, &[9.0][..]);
    assert!(nn.results_layer_disjoint_mut([1, 1]).is_err());
    assert!(nn.params_layer_mut(2).is_none());
}

#[test]
fn layer_phi_names_each_layers_activation() {
    let nn = NeuralNetwork::new(shape(2, &[(2, Phi::Tanh), (1, Phi::Sigmoid)]), 0.0f32);
    assert!(matches!(nn.layer_phi(0), Some(Phi::Tanh)));
    assert!(matches!(nn.layer_phi(1), Some(Phi::Sigmoid)));
    assert!(nn.layer_phi(2).is_none());
}

#[test]
fn gradients_ignore_stale_scratch_contents() {
    let t = shape(2, &[(3, Phi::Tanh), (1, Phi::Sigmoid)]);
    let mut params = ParamBuffer::create(&t, 0.0f32);
    for (i, v) in spread(13, 9).into_iter().enumerate() {
        params.set(i, v);
    }
    let mut fresh_results = ResultBuffer::create(&t, 0.0f32);
    let mut fresh_derivs = DerivBuffer::create(&t, 0.0f32);
    let fresh = calculate_derivs(&F32, &t, &params, &mut fresh_results, &mut fresh_derivs, &XOR);
    let mut stale_results = ResultBuffer::create(&t, 7.0f32);
    let mut stale_derivs = DerivBuffer::create(&t, -3.0f32);
    let stale = calculate_derivs(&F32, &t, &params, &mut stale_results, &mut stale_derivs, &XOR);
    assert_eq!(fresh.to_bits(), stale.to_bits());
    assert_eq!(fresh_derivs.params(), stale_derivs.params());
}
