//! The training session: gradient descent over batches of samples, on one thread or split
//! into chunks whose gradients are computed separately and applied one after another.
use vstd::prelude::*;

use crate::back_propagation::{
    batch_loss, calculate_derivs, db_total, dw_total, lemma_sample_bounds, stepped,
};
use crate::deriv_buffer::DerivBuffer;
use crate::forward::{forward_acts, forward_unchecked, forward_zs, holds_forward};
use crate::layout::{lemma_counts_bounded, lemma_results_nonempty, n_prev};
use crate::nn::{slice_to_vec, NetworkError, NeuralNetwork};
use crate::param_buffer::ParamBuffer;
use crate::result_buffer::ResultBuffer;
use crate::scalar::{Activation, Arithmetic};
use crate::topology::Topology;

verus! {

/// What one chunk of a batch yields: its average loss and its averaged gradients.
pub struct WorkerResult<T> {
    pub loss: T,
    pub derivs: DerivBuffer<T>,
}

/// Number of chunks a batch of `n_samples` is split into for `n_threads` workers.
pub open spec fn n_chunks(n_samples: nat, n_threads: nat) -> nat {
    if n_threads < n_samples {
        n_threads
    } else {
        n_samples
    }
}

/// Samples `[start, end)` of chunk `i`: chunks of `n_samples / n_chunks` samples, in order,
/// the last one also taking the remainder.
pub open spec fn chunk_bounds(n_samples: nat, n_threads: nat, i: int) -> (int, int) {
    let c = n_chunks(n_samples, n_threads);
    let size = n_samples as int / c as int;
    (i * size, if i + 1 == c { n_samples as int } else { (i + 1) * size })
}

/// With one thread, a batch is one chunk holding every sample, in order: the worker's chunk is
/// the whole sample list, so its loss and gradients are those that the single-threaded path
/// computes (compare the contracts of [`worker`] and [`Gym::train_single_threaded`]).
pub proof fn lemma_one_thread_is_one_chunk<T>(samples: Seq<T>, n_samples: nat, size: nat)
    requires
        n_samples > 0,
        samples.len() == n_samples * size,
    ensures
        n_chunks(n_samples, 1) == 1,
        chunk_bounds(n_samples, 1, 0) == (0int, n_samples as int),
        samples.subrange(0 * size as int, n_samples * size as int) == samples,
{
    assert(samples.subrange(0 * size as int, n_samples * size as int) =~= samples);
}

/// With one thread, the merged loss is the single-threaded loss: the one worker's chunk is the
/// whole batch, and the merge hands its loss back as it is.
pub proof fn lemma_one_thread_same_loss<T, A: Arithmetic<T>, P: Activation<T>>(
    ops: &A,
    params: &ParamBuffer<T>,
    phis: Seq<P>,
    samples: Seq<T>,
    n_inputs: int,
    size: nat,
    n_samples: nat,
    result: WorkerResult<T>,
)
    requires
        n_samples > 0,
        samples.len() == n_samples * size,
        result.loss == ops.spec_divide_by_count(
            batch_loss(
                ops,
                params,
                phis,
                samples.subrange(0 * size as int, n_samples * size as int),
                n_inputs,
                size as int,
                n_samples as int,
            ),
            n_samples as usize,
        ),
    ensures
        mean_loss(ops, seq![result]) == ops.spec_divide_by_count(
            batch_loss(ops, params, phis, samples, n_inputs, size as int, n_samples as int),
            n_samples as usize,
        ),
{
    lemma_one_thread_is_one_chunk(samples, n_samples, size);
    assert(seq![result].len() == 1);
}

/// Gradients that agree layer by layer give the same gradient step: with one thread, the
/// worker's gradients over the whole batch equal the single-threaded path's (see
/// [`lemma_one_thread_is_one_chunk`]), so both paths leave the same parameters.
pub proof fn lemma_same_gradients_same_step<T, A: Arithmetic<T>>(
    ops: &A,
    params: Seq<T>,
    d1: &DerivBuffer<T>,
    d2: &DerivBuffer<T>,
    eta: T,
)
    requires
        d1.wf(),
        d2.wf(),
        d2.spec_n_inputs() == d1.spec_n_inputs(),
        d2.sizes() == d1.sizes(),
        params.len() == d1.spec_n_params(),
        forall|u: int|
            #![trigger d1.dws(u)]
            #![trigger d1.dbs(u)]
            0 <= u < d1.sizes().len() ==> d1.dws(u) == d2.dws(u) && d1.dbs(u) == d2.dbs(u),
    ensures
        stepped(ops, params, d1@, eta) == stepped(ops, params, d2@, eta),
{
    d1.lemma_params_from_views(d2);
    assert(stepped(ops, params, d1@, eta) =~= stepped(ops, params, d2@, eta));
}

/// Splits `n_samples` samples into `min(n_threads, n_samples)` contiguous chunks, returned as
/// `(start, end)` sample ranges in order; the last chunk absorbs the remainder of the division.
pub fn partition_samples(n_samples: usize, n_threads: usize) -> (r: Vec<(usize, usize)>)
    requires
        n_samples > 0,
        n_threads > 0,
    ensures
        r@.len() == n_chunks(n_samples as nat, n_threads as nat),
        forall|i: int|
            0 <= i < r@.len() ==> (#[trigger] r@[i]).0 == chunk_bounds(
                n_samples as nat,
                n_threads as nat,
                i,
            ).0 && r@[i].1 == chunk_bounds(n_samples as nat, n_threads as nat, i).1,
        r@[0].0 == 0,
        r@.last().1 == n_samples,
        forall|i: int| 0 <= i < r@.len() ==> (#[trigger] r@[i]).0 < r@[i].1,
        forall|i: int| 0 <= i < r@.len() - 1 ==> (#[trigger] r@[i]).1 == r@[i + 1].0,
{
    let n_chunks = if n_threads < n_samples {
        n_threads
    } else {
        n_samples
    };
    let size = n_samples / n_chunks;
    assert(n_chunks * size <= n_samples && size >= 1) by (nonlinear_arith)
        requires
            0 < n_chunks <= n_samples,
            size == n_samples / n_chunks,
    ;
    let mut r: Vec<(usize, usize)> = Vec::new();
    let mut i: usize = 0;
    while i < n_chunks
        invariant
            0 < n_chunks <= n_samples,
            n_chunks == crate::gym::n_chunks(n_samples as nat, n_threads as nat),
            size == n_samples / n_chunks,
            size >= 1,
            n_chunks * size <= n_samples,
            i <= n_chunks,
            r@.len() == i,
            forall|j: int|
                0 <= j < i ==> (#[trigger] r@[j]).0 == chunk_bounds(
                    n_samples as nat,
                    n_threads as nat,
                    j,
                ).0 && r@[j].1 == chunk_bounds(n_samples as nat, n_threads as nat, j).1,
        decreases n_chunks - i,
    {
        proof {
            lemma_sample_bounds(i as int, size as int, n_chunks as int);
        }
        let start = i * size;
        let end = if i + 1 == n_chunks {
            n_samples
        } else {
            start + size
        };
        r.push((start, end));
        i = i + 1;
    }
    proof {
        assert forall|i: int| 0 <= i < r@.len() implies (#[trigger] r@[i]).0 < r@[i].1 by {
            lemma_sample_bounds(i, size as int, n_chunks as int);
        }
        assert forall|i: int| 0 <= i < r@.len() - 1 implies (#[trigger] r@[i]).1 == r@[i + 1].0 by {
            lemma_sample_bounds(i, size as int, n_chunks as int);
        }
    }
    r
}

/// Computes the gradients of samples `[first, end)` of the flat sample list, against the
/// shared read-only parameters, with buffers of its own.
#[verifier::spinoff_prover]
#[verifier::rlimit(60)]
pub fn worker<T: Copy, A: Arithmetic<T>, P: Activation<T>>(
    ops: &A,
    topology: &Topology<P>,
    params: &ParamBuffer<T>,
    samples: &[T],
    first: usize,
    end: usize,
) -> (r: WorkerResult<T>)
    requires
        topology.spec_fits(),
        params.wf(),
        params.spec_n_inputs() == topology.spec_n_inputs(),
        params.sizes() == topology.sizes(),
        0 < topology.spec_n_inputs() + topology.sizes().last(),
        first < end,
        end * (topology.spec_n_inputs() + topology.sizes().last()) <= samples@.len(),
    ensures
        r.derivs.wf(),
        r.derivs.spec_n_inputs() == topology.spec_n_inputs(),
        r.derivs.sizes() == topology.sizes(),
        ({
            let size = (topology.spec_n_inputs() + topology.sizes().last()) as int;
            r.loss == ops.spec_divide_by_count(
                batch_loss(
                    ops,
                    params,
                    topology.phis(),
                    samples@.subrange(first * size, end * size),
                    topology.spec_n_inputs() as int,
                    size,
                    (end - first) as int,
                ),
                (end - first) as usize,
            )
        }),
        ({
            let ni = topology.spec_n_inputs();
            let sizes = topology.sizes();
            let size = (ni + sizes.last()) as int;
            let chunk = samples@.subrange(first * size, end * size);
            let count = (end - first) as int;
            &&& forall|u: int, k: int, g: int|
                0 <= u < sizes.len() && 0 <= k < sizes[u] && 0 <= g < n_prev(ni, sizes, u)
                    ==> #[trigger] r.derivs.dws(u)[k * n_prev(ni, sizes, u) + g]
                    == ops.spec_divide_by_count(
                    dw_total(ops, params, topology.phis(), chunk, ni as int, size, count, u, k, g),
                    count as usize,
                )
            &&& forall|u: int, k: int|
                0 <= u < sizes.len() && 0 <= k < sizes[u] ==> #[trigger] r.derivs.dbs(u)[k]
                    == ops.spec_divide_by_count(
                    db_total(ops, params, topology.phis(), chunk, ni as int, size, count, u, k),
                    count as usize,
                )
        }),
{
    let ghost ni = topology.spec_n_inputs();
    let ghost sizes = topology.sizes();
    proof {
        lemma_counts_bounded(ni, sizes);
        lemma_results_nonempty(ni, sizes);
    }
    let mut results = ResultBuffer::create(topology, ops.zero());
    let mut derivs = DerivBuffer::create(topology, ops.zero());
    let len = samples.len();
    let n_inputs = topology.n_inputs();
    let n_outputs = topology.n_outputs();
    assert(n_inputs + n_outputs <= end * (n_inputs + n_outputs)) by (nonlinear_arith)
        requires
            0 < n_inputs + n_outputs,
            0 < end,
    ;
    let sample_size = n_inputs + n_outputs;
    proof {
        lemma_chunk(first as int, end as int, sample_size as int);
    }
    let chunk = &samples[first * sample_size..end * sample_size];
    assert(chunk@.len() as int / sample_size as int == end - first) by (nonlinear_arith)
        requires
            chunk@.len() == end * sample_size - first * sample_size,
            end * sample_size - first * sample_size == (end - first) * sample_size,
            sample_size > 0,
    ;
    let loss = calculate_derivs(ops, topology, params, &mut results, &mut derivs, chunk);
    WorkerResult { loss, derivs }
}

/// Samples `[first, end)` of size `size` make a non-empty range of whole samples.
proof fn lemma_chunk(first: int, end: int, size: int)
    requires
        0 <= first < end,
        0 < size,
    ensures
        0 <= first * size < end * size,
        (end * size - first * size) % size == 0,
        end * size - first * size == (end - first) * size,
{
    assert(0 <= first * size < end * size) by (nonlinear_arith)
        requires
            0 <= first < end,
            0 < size,
    ;
    assert(end * size - first * size == (end - first) * size) by (nonlinear_arith);
    vstd::arithmetic::div_mod::lemma_mod_multiples_basic(end - first, size);
}

/// The chunks' average losses, the first `count >= 1` of them added up in order, starting from
/// the first.
pub open spec fn summed_losses<T, A: Arithmetic<T>>(ops: &A, results: Seq<WorkerResult<T>>, count: int) -> T
    decreases count,
{
    if count <= 1 {
        results[0].loss
    } else {
        ops.spec_plus(summed_losses(ops, results, count - 1), results[count - 1].loss)
    }
}

/// The mean of the chunks' average losses; with one chunk, its loss itself.
pub open spec fn mean_loss<T, A: Arithmetic<T>>(ops: &A, results: Seq<WorkerResult<T>>) -> T {
    if results.len() == 1 {
        results[0].loss
    } else {
        ops.spec_divide_by_count(summed_losses(ops, results, results.len() as int), results.len() as usize)
    }
}

/// `params` after the gradient steps of the first `count` chunks, applied in order.
pub open spec fn stepped_by_all<T, A: Arithmetic<T>>(
    ops: &A,
    params: Seq<T>,
    results: Seq<WorkerResult<T>>,
    eta: T,
    count: int,
) -> Seq<T>
    decreases count,
{
    if count <= 0 {
        params
    } else {
        stepped(ops, stepped_by_all(ops, params, results, eta, count - 1), results[count - 1].derivs@, eta)
    }
}

/// A training session over a network. Idle until the first training call, which allocates
/// its scratch result and derivative buffers; ready from then on.
pub struct Gym<T, P> {
    nn: NeuralNetwork<T, P>,
    results: Option<ResultBuffer<T>>,
    derivs: Option<DerivBuffer<T>>,
}

impl<T, P> Gym<T, P> {
    pub closed spec fn spec_nn(&self) -> NeuralNetwork<T, P> {
        self.nn
    }

    pub closed spec fn spec_results(&self) -> Option<ResultBuffer<T>> {
        self.results
    }

    pub closed spec fn spec_derivs(&self) -> Option<DerivBuffer<T>> {
        self.derivs
    }

    /// Both scratch buffers are allocated.
    pub open spec fn is_ready(&self) -> bool {
        self.spec_results() is Some && self.spec_derivs() is Some
    }

    /// The network is well formed, and each allocated scratch buffer has its shape.
    pub open spec fn wf(&self) -> bool {
        let t = self.spec_nn().spec_topology();
        &&& self.spec_nn().wf()
        &&& self.spec_results() matches Some(r) ==> {
            &&& r.wf()
            &&& r.spec_n_inputs() == t.spec_n_inputs()
            &&& r.sizes() == t.sizes()
        }
        &&& self.spec_derivs() matches Some(d) ==> {
            &&& d.wf()
            &&& d.spec_n_inputs() == t.spec_n_inputs()
            &&& d.sizes() == t.sizes()
        }
    }

    /// An idle session over `nn`.
    pub fn new(nn: NeuralNetwork<T, P>) -> (r: Self)
        requires
            nn.wf(),
        ensures
            r.wf(),
            r.spec_nn() == nn,
            r.spec_results() is None,
            r.spec_derivs() is None,
    {
        Gym { nn, results: None, derivs: None }
    }

    /// The network being trained.
    pub fn nn(&self) -> (r: &NeuralNetwork<T, P>)
        ensures
            *r == self.spec_nn(),
    {
        &self.nn
    }

    /// Ends the session and gives the trained network back.
    pub fn finish(self) -> (r: NeuralNetwork<T, P>)
        ensures
            r == self.spec_nn(),
    {
        self.nn
    }

    /// The scratch result buffer, allocated on first use.
    fn take_results(&mut self, zero: T) -> (r: ResultBuffer<T>)
        where
            T: Copy,
        requires
            old(self).wf(),
        ensures
            final(self).wf(),
            final(self).spec_nn() == old(self).spec_nn(),
            final(self).spec_derivs() == old(self).spec_derivs(),
            r.wf(),
            r.spec_n_inputs() == old(self).spec_nn().spec_topology().spec_n_inputs(),
            r.sizes() == old(self).spec_nn().spec_topology().sizes(),
    {
        match self.results.take() {
            Some(r) => r,
            None => {
                let t = self.nn.topology();
                proof {
                    lemma_counts_bounded(t.spec_n_inputs(), t.sizes());
                    lemma_results_nonempty(t.spec_n_inputs(), t.sizes());
                }
                ResultBuffer::create(t, zero)
            },
        }
    }

    /// The scratch derivative buffer, allocated on first use.
    fn take_derivs(&mut self, zero: T) -> (r: DerivBuffer<T>)
        where
            T: Copy,
        requires
            old(self).wf(),
        ensures
            final(self).wf(),
            final(self).spec_nn() == old(self).spec_nn(),
            final(self).spec_results() == old(self).spec_results(),
            r.wf(),
            r.spec_n_inputs() == old(self).spec_nn().spec_topology().spec_n_inputs(),
            r.sizes() == old(self).spec_nn().spec_topology().sizes(),
    {
        match self.derivs.take() {
            Some(d) => d,
            None => DerivBuffer::create(self.nn.topology(), zero),
        }
    }

    /// Runs the network on `input` with the session's result buffer and returns the output
    /// layer's activations; an input of the wrong length is reported.
    pub fn forward<A: Arithmetic<T>>(&mut self, ops: &A, input: &[T]) -> (r: Result<Vec<T>, NetworkError>)
        where
            T: Copy,
            P: Activation<T>,
        requires
            old(self).wf(),
        ensures
            final(self).wf(),
            final(self).spec_nn() == old(self).spec_nn(),
            final(self).spec_derivs() == old(self).spec_derivs(),
            final(self).spec_results() is Some,
            r is Ok <==> input@.len() == old(self).spec_nn().spec_topology().spec_n_inputs(),
            r matches Ok(out) ==> {
                &&& holds_forward(
                    ops,
                    &old(self).spec_nn().spec_params(),
                    old(self).spec_nn().spec_topology().phis(),
                    input@,
                    &final(self).spec_results().unwrap(),
                )
                &&& out@ == forward_acts(
                    ops,
                    &old(self).spec_nn().spec_params(),
                    old(self).spec_nn().spec_topology().phis(),
                    input@,
                    old(self).spec_nn().spec_topology().sizes().len() - 1,
                )
            },
            r matches Err(e) ==> e == (NetworkError::InputDimension {
                expected: old(self).spec_nn().spec_topology().spec_n_inputs() as usize,
                got: input@.len() as usize,
            }),
    {
        let mut results = self.take_results(ops.zero());
        let expected = self.nn.n_inputs();
        if input.len() != expected {
            self.results = Some(results);
            return Err(NetworkError::InputDimension { expected, got: input.len() });
        }
        let n_layers = self.nn.topology().n_layers();
        forward_unchecked(ops, input, self.nn.topology(), self.nn.params(), &mut results);
        proof {
            let u = n_layers - 1;
            assert(results.zs(u as int) == forward_zs(
                ops,
                &self.nn.spec_params(),
                self.nn.spec_topology().phis(),
                input@,
                u as int,
            ));
        }
        let out = slice_to_vec(results.layer(n_layers - 1).unwrap().a);
        self.results = Some(results);
        Ok(out)
    }

    /// One epoch of gradient descent on one thread: the averaged gradients of the loss over
    /// `samples` (see [`calculate_derivs`]), then `p -= eta * dp` for every parameter. Returns the
    /// average loss. `samples` is a flat list of samples, each `n_inputs` input values followed
    /// by `n_outputs` target values.
    pub fn train_single_threaded<A: Arithmetic<T>>(&mut self, ops: &A, eta: T, samples: &[T]) -> (loss: T)
        where
            T: Copy,
            P: Activation<T>,
        requires
            old(self).wf(),
            samples@.len() > 0,
            0 < old(self).spec_nn().spec_topology().spec_n_inputs()
                + old(self).spec_nn().spec_topology().sizes().last(),
            samples@.len() as int % (old(self).spec_nn().spec_topology().spec_n_inputs()
                + old(self).spec_nn().spec_topology().sizes().last()) as int == 0,
        ensures
            final(self).wf(),
            final(self).is_ready(),
            final(self).spec_nn().spec_topology() == old(self).spec_nn().spec_topology(),
            final(self).spec_nn().spec_results() == old(self).spec_nn().spec_results(),
            ({
                let t = old(self).spec_nn().spec_topology();
                let size = (t.spec_n_inputs() + t.sizes().last()) as int;
                let count = samples@.len() as int / size;
                loss == ops.spec_divide_by_count(
                    batch_loss(
                        ops,
                        &old(self).spec_nn().spec_params(),
                        t.phis(),
                        samples@,
                        t.spec_n_inputs() as int,
                        size,
                        count,
                    ),
                    count as usize,
                )
            }),
            final(self).spec_nn().spec_params()@ == stepped(
                ops,
                old(self).spec_nn().spec_params()@,
                final(self).spec_derivs().unwrap()@,
                eta,
            ),
            ({
                let t = old(self).spec_nn().spec_topology();
                let p = old(self).spec_nn().spec_params();
                let ni = t.spec_n_inputs();
                let sizes = t.sizes();
                let size = (ni + sizes.last()) as int;
                let count = samples@.len() as int / size;
                let d = final(self).spec_derivs().unwrap();
                &&& forall|u: int, k: int, g: int|
                    0 <= u < sizes.len() && 0 <= k < sizes[u] && 0 <= g < n_prev(ni, sizes, u)
                        ==> #[trigger] d.dws(u)[k * n_prev(ni, sizes, u) + g]
                        == ops.spec_divide_by_count(
                        dw_total(ops, &p, t.phis(), samples@, ni as int, size, count, u, k, g),
                        count as usize,
                    )
                &&& forall|u: int, k: int|
                    0 <= u < sizes.len() && 0 <= k < sizes[u] ==> #[trigger] d.dbs(u)[k]
                        == ops.spec_divide_by_count(
                        db_total(ops, &p, t.phis(), samples@, ni as int, size, count, u, k),
                        count as usize,
                    )
            }),
    {
        let mut results = self.take_results(ops.zero());
        let mut derivs = self.take_derivs(ops.zero());
        let loss = calculate_derivs(
            ops,
            self.nn.topology(),
            self.nn.params(),
            &mut results,
            &mut derivs,
            samples,
        );
        self.nn.apply_derivs(ops, &derivs, eta);
        self.results = Some(results);
        self.derivs = Some(derivs);
        loss
    }

    /// Applies the gradients of each chunk's result in turn, each with the same `eta`, and
    /// returns the mean of the chunks' average losses: their sum, taken in order from the first,
    /// divided by their number; with one chunk, its loss as it is.
    pub fn merge_worker_results<A: Arithmetic<T>>(
        &mut self,
        ops: &A,
        eta: T,
        results: &Vec<WorkerResult<T>>,
    ) -> (loss: T)
        where
            T: Copy,
        requires
            old(self).wf(),
            results@.len() > 0,
            forall|i: int|
                0 <= i < results@.len() ==> {
                    &&& (#[trigger] results@[i]).derivs.wf()
                    &&& results@[i].derivs.spec_n_inputs()
                        == old(self).spec_nn().spec_topology().spec_n_inputs()
                    &&& results@[i].derivs.sizes() == old(self).spec_nn().spec_topology().sizes()
                },
        ensures
            final(self).wf(),
            final(self).spec_nn().spec_topology() == old(self).spec_nn().spec_topology(),
            final(self).spec_nn().spec_results() == old(self).spec_nn().spec_results(),
            final(self).spec_results() == old(self).spec_results(),
            final(self).spec_derivs() == old(self).spec_derivs(),
            loss == mean_loss(ops, results@),
            final(self).spec_nn().spec_params()@ == stepped_by_all(
                ops,
                old(self).spec_nn().spec_params()@,
                results@,
                eta,
                results@.len() as int,
            ),
    {
        let mut loss = results[0].loss;
        let mut i: usize = 0;
        while i < results.len()
            invariant
                i <= results@.len(),
                results@.len() > 0,
                self.wf(),
                self.spec_nn().spec_topology() == old(self).spec_nn().spec_topology(),
                self.spec_nn().spec_results() == old(self).spec_nn().spec_results(),
                self.spec_results() == old(self).spec_results(),
                self.spec_derivs() == old(self).spec_derivs(),
                loss == summed_losses(ops, results@, if i == 0 { 1 } else { i as int }),
                self.spec_nn().spec_params()@ == stepped_by_all(
                    ops,
                    old(self).spec_nn().spec_params()@,
                    results@,
                    eta,
                    i as int,
                ),
                forall|i: int|
                    0 <= i < results@.len() ==> {
                        &&& (#[trigger] results@[i]).derivs.wf()
                        &&& results@[i].derivs.spec_n_inputs()
                            == old(self).spec_nn().spec_topology().spec_n_inputs()
                        &&& results@[i].derivs.sizes()
                            == old(self).spec_nn().spec_topology().sizes()
                    },
            decreases results@.len() - i,
        {
            let result = &results[i];
            if i > 0 {
                loss = ops.plus(loss, result.loss);
            }
            self.nn.apply_derivs(ops, &result.derivs, eta);
            i = i + 1;
        }
        if results.len() == 1 {
            loss
        } else {
            ops.divide_by_count(loss, results.len())
        }
    }
}

} // verus!
