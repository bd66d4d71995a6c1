//! A network: its topology, its parameters, and the results of its last forward pass.
use vstd::prelude::*;

use crate::back_propagation::{apply_derivs, batch_loss, lemma_sample_bounds, squared_error, stepped};
use crate::deriv_buffer::DerivBuffer;
use crate::forward::{forward_acts, forward_unchecked, forward_zs, holds_forward};
use crate::layout::{lemma_counts_bounded, lemma_results_nonempty, param_count};
use crate::param_buffer::{self, DisjointError, ParamBuffer};
use crate::result_buffer::{self, ResultBuffer};
use crate::scalar::{Activation, Arithmetic};
use crate::topology::Topology;

verus! {

/// What a caller can get wrong when handing values to a network.
#[derive(Debug, Clone, Copy, PartialEq, Eq, Structural)]
pub enum NetworkError {
    /// An input vector whose length is not the network's input count.
    InputDimension { expected: usize, got: usize },
    /// A parameter array whose length is not the network's parameter count.
    ParamLength { expected: usize, got: usize },
}

/// A network with its parameter buffer and a result buffer of the same shape.
pub struct NeuralNetwork<T, P> {
    topology: Topology<P>,
    params: ParamBuffer<T>,
    results: ResultBuffer<T>,
}

impl<T, P> NeuralNetwork<T, P> {
    pub closed spec fn spec_topology(&self) -> Topology<P> {
        self.topology
    }

    pub closed spec fn spec_params(&self) -> ParamBuffer<T> {
        self.params
    }

    pub closed spec fn spec_results(&self) -> ResultBuffer<T> {
        self.results
    }

    /// Both buffers are well formed and laid out for the topology, which fits.
    pub open spec fn wf(&self) -> bool {
        &&& self.spec_topology().spec_fits()
        &&& self.spec_params().wf()
        &&& self.spec_results().wf()
        &&& self.spec_params().spec_n_inputs() == self.spec_topology().spec_n_inputs()
        &&& self.spec_params().sizes() == self.spec_topology().sizes()
        &&& self.spec_results().spec_n_inputs() == self.spec_topology().spec_n_inputs()
        &&& self.spec_results().sizes() == self.spec_topology().sizes()
    }

    /// A network of shape `topology`, with every parameter set to `zero`.
    pub fn new(topology: Topology<P>, zero: T) -> (r: Self)
        where
            T: Copy,
        requires
            topology.spec_fits(),
        ensures
            r.wf(),
            r.spec_topology() == topology,
            r.spec_params()@ == Seq::new(
                param_count(topology.spec_n_inputs(), topology.sizes()),
                |i: int| zero,
            ),
    {
        proof {
            lemma_counts_bounded(topology.spec_n_inputs(), topology.sizes());
            lemma_results_nonempty(topology.spec_n_inputs(), topology.sizes());
        }
        let params = ParamBuffer::create(&topology, zero);
        let results = ResultBuffer::create(&topology, zero);
        NeuralNetwork { topology, params, results }
    }

    /// Puts a network together from buffers laid out for `topology`.
    pub fn from_raw_parts(topology: Topology<P>, params: ParamBuffer<T>, results: ResultBuffer<T>) -> (r: Self)
        requires
            topology.spec_fits(),
            params.wf(),
            results.wf(),
            params.spec_n_inputs() == topology.spec_n_inputs(),
            params.sizes() == topology.sizes(),
            results.spec_n_inputs() == topology.spec_n_inputs(),
            results.sizes() == topology.sizes(),
        ensures
            r.wf(),
            r.spec_topology() == topology,
            r.spec_params() == params,
            r.spec_results() == results,
    {
        NeuralNetwork { topology, params, results }
    }

    /// Takes the network apart into its buffers.
    pub fn into_raw_parts(self) -> (r: (ParamBuffer<T>, ResultBuffer<T>))
        ensures
            r.0 == self.spec_params(),
            r.1 == self.spec_results(),
    {
        (self.params, self.results)
    }

    pub fn n_inputs(&self) -> (r: usize)
        ensures
            r == self.spec_topology().spec_n_inputs(),
    {
        self.topology.n_inputs()
    }

    pub fn n_outputs(&self) -> (r: usize)
        requires
            self.wf(),
        ensures
            r == self.spec_topology().sizes().last(),
    {
        proof {
            lemma_layers_nonempty(self.topology.spec_n_inputs(), self.topology.sizes());
        }
        self.topology.n_outputs()
    }

    pub fn topology(&self) -> (r: &Topology<P>)
        ensures
            *r == self.spec_topology(),
    {
        &self.topology
    }

    pub fn params(&self) -> (r: &ParamBuffer<T>)
        ensures
            *r == self.spec_params(),
    {
        &self.params
    }

    pub fn results(&self) -> (r: &ResultBuffer<T>)
        ensures
            *r == self.spec_results(),
    {
        &self.results
    }

    /// The flat parameter array, `W_0, b_0, W_1, b_1, ...`: the persistence format.
    pub fn params_as_slice(&self) -> (r: &[T])
        ensures
            r@ == self.spec_params()@,
    {
        self.params.as_slice()
    }

    /// The flat parameter array, writable; the network stays well formed as long as the slice
    /// keeps its length.
    pub fn params_as_mut_slice(&mut self) -> (r: &mut [T])
        requires
            old(self).wf(),
        ensures
            r@ == old(self).spec_params()@,
            final(self).spec_params()@ == final(r)@,
            final(self).spec_topology() == old(self).spec_topology(),
            final(self).spec_results() == old(self).spec_results(),
            final(r)@.len() == r@.len() ==> final(self).wf(),
    {
        self.params.as_mut_slice()
    }

    /// Replaces every parameter by `values`, when it has exactly one value per parameter;
    /// otherwise reports the mismatch and leaves the network as it was.
    pub fn load_params(&mut self, values: &[T]) -> (r: Result<(), NetworkError>)
        where
            T: Copy,
        requires
            old(self).wf(),
        ensures
            final(self).wf(),
            final(self).spec_topology() == old(self).spec_topology(),
            final(self).spec_results() == old(self).spec_results(),
            r is Ok <==> values@.len() == old(self).spec_params()@.len(),
            r is Ok ==> final(self).spec_params()@ == values@,
            r matches Err(e) ==> {
                &&& e == (NetworkError::ParamLength {
                    expected: old(self).spec_params()@.len() as usize,
                    got: values@.len() as usize,
                })
                &&& final(self).spec_params() == old(self).spec_params()
            },
    {
        let expected = self.params.len();
        if values.len() != expected {
            return Err(NetworkError::ParamLength { expected, got: values.len() });
        }
        let mut i: usize = 0;
        while i < expected
            invariant
                i <= expected == values@.len() == self.params@.len(),
                self.topology == old(self).topology,
                self.results == old(self).results,
                old(self).wf(),
                self.params.wf(),
                self.params.spec_n_inputs() == self.topology.spec_n_inputs(),
                self.params.sizes() == self.topology.sizes(),
                forall|j: int| 0 <= j < i ==> self.params@[j] == values@[j],
            decreases expected - i,
        {
            self.params.set(i, values[i]);
            i = i + 1;
        }
        assert(self.params@ =~= values@);
        Ok(())
    }

    /// The activation of layer `index`, or `None` when there is no such layer. A layer's
    /// parameters are in [`NeuralNetwork::params_layer`]; its activation is in the topology.
    pub fn layer_phi(&self, index: usize) -> (r: Option<&P>)
        ensures
            r is None <==> index >= self.spec_topology().sizes().len(),
            r matches Some(phi) ==> *phi == self.spec_topology().phis()[index as int],
    {
        let descs = self.topology.layer_descriptions();
        proof {
            assert(descs@.map_values(|d: crate::topology::LayerDescription<P>| d.n_neurons as nat).len()
                == descs@.len());
        }
        if index < descs.len() {
            Some(&descs[index].phi)
        } else {
            None
        }
    }

    /// Read-only view of parameter layer `index`, or `None` when there is no such layer.
    pub fn params_layer(&self, index: usize) -> (r: Option<param_buffer::LayerRef<'_, T>>)
        requires
            self.wf(),
        ensures
            r is None <==> index >= self.spec_topology().sizes().len(),
            r matches Some(l) ==> {
                &&& l.w@ == self.spec_params().weights(index as int)
                &&& l.b@ == self.spec_params().biases(index as int)
            },
    {
        self.params.layer(index)
    }

    /// Mutable view of parameter layer `index`, or `None` when there is no such layer (see
    /// [`ParamBuffer::layer_mut`]).
    pub fn params_layer_mut(&mut self, index: usize) -> (r: Option<param_buffer::LayerMut<'_, T>>)
        requires
            old(self).wf(),
        ensures
            final(self).spec_topology() == old(self).spec_topology(),
            final(self).spec_results() == old(self).spec_results(),
            r is None <==> index >= old(self).spec_topology().sizes().len(),
            r is None ==> final(self).spec_params()@ == old(self).spec_params()@ && final(self).wf(),
            r matches Some(l) ==> {
                &&& final(l.w)@.len() == l.w@.len() && final(l.b)@.len() == l.b@.len()
                    ==> final(self).wf()
                &&& old(self).spec_params().is_view(index as int, l.n, l.n_previous, l.w@, l.b@)
                &&& final(self).spec_params()@ == old(self).spec_params()@.subrange(
                    0,
                    old(self).spec_params().w_start(index as int) as int,
                ) + final(l.w)@ + final(l.b)@ + old(self).spec_params()@.subrange(
                    old(self).spec_params().b_start(index as int) + l.n,
                    old(self).spec_params()@.len() as int,
                )
            },
    {
        self.params.layer_mut(index)
    }

    /// Mutable views of two different parameter layers at once (see
    /// [`ParamBuffer::layer_disjoint_mut`]).
    pub fn params_layer_disjoint_mut(&mut self, indices: [usize; 2]) -> (r: Result<
        [param_buffer::LayerMut<'_, T>; 2],
        DisjointError,
    >)
        requires
            old(self).wf(),
        ensures
            final(self).spec_topology() == old(self).spec_topology(),
            final(self).spec_results() == old(self).spec_results(),
            r == Err::<[param_buffer::LayerMut<'_, T>; 2], _>(DisjointError::IndexOutOfBounds)
                <==> (indices[0] >= old(self).spec_topology().sizes().len() || indices[1]
                >= old(self).spec_topology().sizes().len()),
            r == Err::<[param_buffer::LayerMut<'_, T>; 2], _>(DisjointError::OverlappingIndices)
                <==> (indices[0] < old(self).spec_topology().sizes().len() && indices[1]
                < old(self).spec_topology().sizes().len() && indices[0] == indices[1]),
            r is Err ==> final(self).spec_params()@ == old(self).spec_params()@ && final(self).wf(),
            r matches Ok(ls) ==> {
                &&& old(self).spec_params().is_view(indices[0] as int, ls[0].n, ls[0].n_previous, ls[0].w@, ls[0].b@)
                &&& old(self).spec_params().is_view(indices[1] as int, ls[1].n, ls[1].n_previous, ls[1].w@, ls[1].b@)
                &&& indices[0] < indices[1] ==> final(self).spec_params()@
                    == old(self).spec_params().spliced(
                    indices[0] as int,
                    indices[1] as int,
                    final(ls[0].w)@ + final(ls[0].b)@,
                    final(ls[1].w)@ + final(ls[1].b)@,
                )
                &&& indices[1] < indices[0] ==> final(self).spec_params()@
                    == old(self).spec_params().spliced(
                    indices[1] as int,
                    indices[0] as int,
                    final(ls[1].w)@ + final(ls[1].b)@,
                    final(ls[0].w)@ + final(ls[0].b)@,
                )
                &&& final(ls[0].w)@.len() == ls[0].w@.len() && final(ls[0].b)@.len() == ls[0].b@.len()
                    && final(ls[1].w)@.len() == ls[1].w@.len() && final(ls[1].b)@.len()
                    == ls[1].b@.len() ==> final(self).wf()
            },
    {
        self.params.layer_disjoint_mut(indices)
    }

    /// Mutable view of result layer `index`, or `None` when there is no such layer (see
    /// [`ResultBuffer::layer_mut`]).
    pub fn results_layer_mut(&mut self, index: usize) -> (r: Option<result_buffer::LayerMut<'_, T>>)
        requires
            old(self).wf(),
        ensures
            final(self).spec_topology() == old(self).spec_topology(),
            final(self).spec_params() == old(self).spec_params(),
            r is None <==> index >= old(self).spec_topology().sizes().len(),
            r is None ==> final(self).spec_results()@ == old(self).spec_results()@ && final(self).wf(),
            r matches Some(l) ==> {
                &&& final(l.z)@.len() == l.z@.len() && final(l.a)@.len() == l.a@.len()
                    ==> final(self).wf()
                &&& old(self).spec_results().is_view(index as int, l.n, l.n_previous, l.z@, l.a@)
                &&& final(self).spec_results()@ == old(self).spec_results()@.subrange(
                    0,
                    old(self).spec_results().z_start(index as int) as int,
                ) + final(l.z)@ + final(l.a)@ + old(self).spec_results()@.subrange(
                    old(self).spec_results().a_start(index as int) + l.n,
                    old(self).spec_results()@.len() as int,
                )
            },
    {
        self.results.layer_mut(index)
    }

    /// Mutable views of two different result layers at once (see
    /// [`ResultBuffer::layer_disjoint_mut`]).
    pub fn results_layer_disjoint_mut(&mut self, indices: [usize; 2]) -> (r: Result<
        [result_buffer::LayerMut<'_, T>; 2],
        DisjointError,
    >)
        requires
            old(self).wf(),
        ensures
            final(self).spec_topology() == old(self).spec_topology(),
            final(self).spec_params() == old(self).spec_params(),
            r == Err::<[result_buffer::LayerMut<'_, T>; 2], _>(DisjointError::IndexOutOfBounds)
                <==> (indices[0] >= old(self).spec_topology().sizes().len() || indices[1]
                >= old(self).spec_topology().sizes().len()),
            r == Err::<[result_buffer::LayerMut<'_, T>; 2], _>(DisjointError::OverlappingIndices)
                <==> (indices[0] < old(self).spec_topology().sizes().len() && indices[1]
                < old(self).spec_topology().sizes().len() && indices[0] == indices[1]),
            r is Err ==> final(self).spec_results()@ == old(self).spec_results()@ && final(self).wf(),
            r matches Ok(ls) ==> {
                &&& old(self).spec_results().is_view(indices[0] as int, ls[0].n, ls[0].n_previous, ls[0].z@, ls[0].a@)
                &&& old(self).spec_results().is_view(indices[1] as int, ls[1].n, ls[1].n_previous, ls[1].z@, ls[1].a@)
                &&& indices[0] < indices[1] ==> final(self).spec_results()@
                    == old(self).spec_results().spliced(
                    indices[0] as int,
                    indices[1] as int,
                    final(ls[0].z)@ + final(ls[0].a)@,
                    final(ls[1].z)@ + final(ls[1].a)@,
                )
                &&& indices[1] < indices[0] ==> final(self).spec_results()@
                    == old(self).spec_results().spliced(
                    indices[1] as int,
                    indices[0] as int,
                    final(ls[1].z)@ + final(ls[1].a)@,
                    final(ls[0].z)@ + final(ls[0].a)@,
                )
                &&& final(ls[0].z)@.len() == ls[0].z@.len() && final(ls[0].a)@.len() == ls[0].a@.len()
                    && final(ls[1].z)@.len() == ls[1].z@.len() && final(ls[1].a)@.len()
                    == ls[1].a@.len() ==> final(self).wf()
            },
    {
        self.results.layer_disjoint_mut(indices)
    }

    /// Read-only view of result layer `index`, or `None` when there is no such layer.
    pub fn results_layer(&self, index: usize) -> (r: Option<result_buffer::LayerRef<'_, T>>)
        requires
            self.wf(),
        ensures
            r is None <==> index >= self.spec_topology().sizes().len(),
            r matches Some(l) ==> {
                &&& l.z@ == self.spec_results().zs(index as int)
                &&& l.a@ == self.spec_results().acts(index as int)
            },
    {
        self.results.layer(index)
    }

    /// Runs the network on `input` and returns the output layer's activations; an input of the
    /// wrong length is reported and changes nothing.
    pub fn forward<A: Arithmetic<T>>(&mut self, ops: &A, input: &[T]) -> (r: Result<Vec<T>, NetworkError>)
        where
            T: Copy,
            P: Activation<T>,
        requires
            old(self).wf(),
        ensures
            final(self).wf(),
            final(self).spec_topology() == old(self).spec_topology(),
            final(self).spec_params() == old(self).spec_params(),
            r is Ok <==> input@.len() == old(self).spec_topology().spec_n_inputs(),
            r matches Ok(out) ==> {
                &&& holds_forward(
                    ops,
                    &old(self).spec_params(),
                    old(self).spec_topology().phis(),
                    input@,
                    &final(self).spec_results(),
                )
                &&& out@ == forward_acts(
                    ops,
                    &old(self).spec_params(),
                    old(self).spec_topology().phis(),
                    input@,
                    old(self).spec_topology().sizes().len() - 1,
                )
            },
            r matches Err(e) ==> {
                &&& e == (NetworkError::InputDimension {
                    expected: old(self).spec_topology().spec_n_inputs() as usize,
                    got: input@.len() as usize,
                })
                &&& final(self).spec_results() == old(self).spec_results()
            },
    {
        let expected = self.topology.n_inputs();
        if input.len() != expected {
            return Err(NetworkError::InputDimension { expected, got: input.len() });
        }
        proof {
            lemma_layers_nonempty(self.topology.spec_n_inputs(), self.topology.sizes());
        }
        forward_unchecked(ops, input, &self.topology, &self.params, &mut self.results);
        let last = self.results.layer(self.results.n_layers() - 1).unwrap();
        proof {
            let u = self.topology.sizes().len() - 1;
            assert(self.results.zs(u) == forward_zs(ops, &self.params, self.topology.phis(), input@, u));
        }
        Ok(slice_to_vec(last.a))
    }

    /// Sum over `samples` of each sample's loss, the sum over output neurons of
    /// `(a_k - y_k)^2`. `samples` is a flat list of samples, each `n_inputs` input values
    /// followed by `n_outputs` target values.
    pub fn loss<A: Arithmetic<T>>(&mut self, ops: &A, samples: &[T]) -> (r: T)
        where
            T: Copy,
            P: Activation<T>,
        requires
            old(self).wf(),
            0 < old(self).spec_topology().spec_n_inputs() + old(self).spec_topology().sizes().last(),
            samples@.len() as int % (old(self).spec_topology().spec_n_inputs()
                + old(self).spec_topology().sizes().last()) as int == 0,
        ensures
            final(self).wf(),
            final(self).spec_topology() == old(self).spec_topology(),
            final(self).spec_params() == old(self).spec_params(),
            r == batch_loss(
                ops,
                &old(self).spec_params(),
                old(self).spec_topology().phis(),
                samples@,
                old(self).spec_topology().spec_n_inputs() as int,
                (old(self).spec_topology().spec_n_inputs() + old(self).spec_topology().sizes().last()) as int,
                samples@.len() as int / (old(self).spec_topology().spec_n_inputs()
                    + old(self).spec_topology().sizes().last()) as int,
            ),
    {
        let ghost ni = self.topology.spec_n_inputs();
        let ghost sizes = self.topology.sizes();
        proof {
            lemma_layers_nonempty(ni, sizes);
        }
        let len = samples.len();
        let n_inputs = self.topology.n_inputs();
        let n_outputs = self.topology.n_outputs();
        let last = self.results.n_layers() - 1;
        let mut loss = ops.zero();
        if len == 0 {
            return loss;
        }
        assert(n_inputs + n_outputs <= len) by (nonlinear_arith)
            requires
                0 < n_inputs + n_outputs,
                len > 0,
                len as int % (n_inputs + n_outputs) as int == 0,
        ;
        let sample_size = n_inputs + n_outputs;
        let n_samples = len / sample_size;
        assert(len == n_samples * sample_size) by (nonlinear_arith)
            requires
                sample_size > 0,
                len as int % sample_size as int == 0,
                n_samples == len as int / sample_size as int,
        ;
        let mut s: usize = 0;
        while s < n_samples
            invariant
                s <= n_samples,
                samples@.len() == n_samples * sample_size == len,
                sample_size == n_inputs + n_outputs,
                sample_size > 0,
                n_inputs == ni,
                n_outputs == sizes.last(),
                last == sizes.len() - 1,
                sizes.len() > 0,
                ni == self.topology.spec_n_inputs(),
                sizes == self.topology.sizes(),
                self.wf(),
                self.topology == old(self).topology,
                self.params == old(self).params,
                loss == batch_loss(ops, &self.params, self.topology.phis(), samples@, ni as int, sample_size as int, s as int),
            decreases n_samples - s,
        {
            proof {
                lemma_sample_bounds(s as int, sample_size as int, n_samples as int);
            }
            let start = s * sample_size;
            let x = &samples[start..start + n_inputs];
            let y = &samples[start + n_inputs..start + sample_size];
            forward_unchecked(ops, x, &self.topology, &self.params, &mut self.results);
            proof {
                assert(self.results.zs(last as int) == forward_zs(
                    ops,
                    &self.params,
                    self.topology.phis(),
                    x@,
                    last as int,
                ));
            }
            let out = self.results.layer(last).unwrap();
            loss = ops.plus(loss, squared_error(ops, out.a, y));
            s = s + 1;
        }
        loss
    }

    /// The gradient-descent step on this network's parameters, with the averaged gradients of
    /// `derivs` (see [`apply_derivs`]).
    pub fn apply_derivs<A: Arithmetic<T>>(&mut self, ops: &A, derivs: &DerivBuffer<T>, eta: T)
        where
            T: Copy,
        requires
            old(self).wf(),
            derivs.wf(),
            derivs.spec_n_inputs() == old(self).spec_topology().spec_n_inputs(),
            derivs.sizes() == old(self).spec_topology().sizes(),
        ensures
            final(self).wf(),
            final(self).spec_topology() == old(self).spec_topology(),
            final(self).spec_results() == old(self).spec_results(),
            final(self).spec_params()@ == stepped(ops, old(self).spec_params()@, derivs@, eta),
    {
        apply_derivs(ops, &mut self.params, derivs, eta);
    }
}

/// Two networks of the same shape have parameter arrays of the same length, so the flat array
/// of one (`params_as_slice`) is accepted by `load_params` of the other, which then holds
/// exactly the same parameters.
pub proof fn lemma_dump_fits_same_shape<T, P>(a: &NeuralNetwork<T, P>, b: &NeuralNetwork<T, P>)
    requires
        a.wf(),
        b.wf(),
        a.spec_topology().spec_n_inputs() == b.spec_topology().spec_n_inputs(),
        a.spec_topology().sizes() == b.spec_topology().sizes(),
    ensures
        a.spec_params()@.len() == b.spec_params()@.len(),
{
    a.spec_params().lemma_len_is_count();
    b.spec_params().lemma_len_is_count();
}

/// A shape with a parameter has a layer.
proof fn lemma_layers_nonempty(n_inputs: nat, sizes: Seq<nat>)
    requires
        0 < param_count(n_inputs, sizes),
    ensures
        sizes.len() > 0,
{
}

/// A copy of `s`.
pub fn slice_to_vec<T: Copy>(s: &[T]) -> (r: Vec<T>)
    ensures
        r@ == s@,
{
    let mut r: Vec<T> = Vec::new();
    let mut i: usize = 0;
    while i < s.len()
        invariant
            i <= s@.len(),
            r@ == s@.subrange(0, i as int),
        decreases s@.len() - i,
    {
        r.push(s[i]);
        i = i + 1;
        assert(r@ =~= s@.subrange(0, i as int));
    }
    assert(s@.subrange(0, s@.len() as int) =~= s@);
    r
}

} // verus!
