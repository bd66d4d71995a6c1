//! Network shape: the number of inputs and an ordered list of layers.
use vstd::prelude::*;

use crate::layout::{
    deriv_count, lemma_neuron_offset_mono, lemma_param_offset_mono, lemma_param_region, n_prev,
    neuron_offset, param_count, param_offset,
};

verus! {

/// One layer of a network: its neuron count and its activation handle.
#[derive(Debug, Clone)]
pub struct LayerDescription<P> {
    pub n_neurons: usize,
    pub phi: P,
}

impl<P> LayerDescription<P> {
    pub fn new(n_neurons: usize, phi: P) -> (r: Self)
        ensures
            r.n_neurons == n_neurons,
            r.phi == phi,
    {
        LayerDescription { n_neurons, phi }
    }
}

/// The ordered description of a network's shape.
#[derive(Debug, Clone)]
pub struct Topology<P> {
    n_inputs: usize,
    layer_descriptions: Vec<LayerDescription<P>>,
}

impl<P> Topology<P> {
    /// Number of network inputs.
    pub closed spec fn spec_n_inputs(&self) -> nat {
        self.n_inputs as nat
    }

    /// Neuron count of each layer, in order.
    pub closed spec fn sizes(&self) -> Seq<nat> {
        self.layer_descriptions@.map_values(|d: LayerDescription<P>| d.n_neurons as nat)
    }

    /// Activation handle of each layer, in order.
    pub closed spec fn phis(&self) -> Seq<P> {
        self.layer_descriptions@.map_values(|d: LayerDescription<P>| d.phi)
    }

    pub fn new(n_inputs: usize, layer_descriptions: Vec<LayerDescription<P>>) -> (r: Self)
        ensures
            r.spec_n_inputs() == n_inputs,
            r.sizes() == layer_descriptions@.map_values(|d: LayerDescription<P>| d.n_neurons as nat),
            r.phis() == layer_descriptions@.map_values(|d: LayerDescription<P>| d.phi),
    {
        Topology { n_inputs, layer_descriptions }
    }

    pub fn n_inputs(&self) -> (r: usize)
        ensures
            r == self.spec_n_inputs(),
    {
        self.n_inputs
    }

    pub fn n_layers(&self) -> (r: usize)
        ensures
            r == self.sizes().len(),
    {
        self.layer_descriptions.len()
    }

    /// Neuron count of the last layer, or the input count for a network without layers.
    pub fn n_outputs(&self) -> (r: usize)
        ensures
            r == if self.sizes().len() == 0 {
                self.spec_n_inputs()
            } else {
                self.sizes().last()
            },
    {
        let len = self.layer_descriptions.len();
        if len == 0 {
            self.n_inputs
        } else {
            self.layer_descriptions[len - 1].n_neurons
        }
    }

    /// Whether buffers can be laid out for this shape: it has at least one parameter, and the
    /// longest buffer (the derivative buffer) has a length that fits in `usize`.
    pub open spec fn spec_fits(&self) -> bool {
        &&& 0 < param_count(self.spec_n_inputs(), self.sizes())
        &&& deriv_count(self.spec_n_inputs(), self.sizes()) <= usize::MAX
    }

    /// Tells whether buffers can be laid out for this shape, without overflow.
    pub fn fits(&self) -> (r: bool)
        ensures
            r == self.spec_fits(),
    {
        let ghost ni = self.spec_n_inputs();
        let ghost sizes = self.sizes();
        let mut params: usize = 0;
        let mut neurons: usize = 0;
        let mut n_previous: usize = self.n_inputs;
        let mut i: usize = 0;
        while i < self.layer_descriptions.len()
            invariant
                i <= sizes.len(),
                sizes == self.sizes(),
                ni == self.spec_n_inputs(),
                params == param_offset(ni, sizes, i as int),
                neurons == neuron_offset(sizes, i as int),
                params + neurons <= usize::MAX,
                n_previous == n_prev(ni, sizes, i as int),
            decreases sizes.len() - i,
        {
            let n = self.layer_descriptions[i].n_neurons;
            proof {
                lemma_param_offset_mono(ni, sizes, i as int + 1, sizes.len() as int);
                lemma_neuron_offset_mono(sizes, i as int + 1, sizes.len() as int);
            }
            let weights = n.checked_mul(n_previous);
            if weights.is_none() {
                proof {
                    assert(n * n_previous > usize::MAX);
                }
                return false;
            }
            let weights = weights.unwrap();
            let total = (params + neurons).checked_add(weights);
            if total.is_none() {
                return false;
            }
            let total = total.unwrap().checked_add(n);
            if total.is_none() {
                return false;
            }
            let total = total.unwrap().checked_add(n);
            if total.is_none() {
                return false;
            }
            params = params + weights + n;
            neurons = neurons + n;
            n_previous = n;
            i = i + 1;
        }
        params > 0
    }

    /// Number of weights and biases of a network of this shape.
    pub fn n_params(&self) -> (r: usize)
        requires
            param_count(self.spec_n_inputs(), self.sizes()) <= usize::MAX,
        ensures
            r == param_count(self.spec_n_inputs(), self.sizes()),
    {
        let ghost ni = self.spec_n_inputs();
        let ghost sizes = self.sizes();
        let mut count: usize = 0;
        let mut n_previous: usize = self.n_inputs;
        let mut i: usize = 0;
        while i < self.layer_descriptions.len()
            invariant
                i <= sizes.len(),
                sizes == self.sizes(),
                ni == self.spec_n_inputs(),
                count == param_offset(ni, sizes, i as int),
                n_previous == n_prev(ni, sizes, i as int),
                param_count(ni, sizes) <= usize::MAX,
            decreases sizes.len() - i,
        {
            let n = self.layer_descriptions[i].n_neurons;
            proof {
                lemma_param_region(ni, sizes, i as int);
            }
            count = count + n * n_previous + n;
            n_previous = n;
            i = i + 1;
        }
        count
    }

    pub fn layer_descriptions(&self) -> (r: &[LayerDescription<P>])
        ensures
            r@.map_values(|d: LayerDescription<P>| d.n_neurons as nat) == self.sizes(),
            r@.map_values(|d: LayerDescription<P>| d.phi) == self.phis(),
    {
        self.layer_descriptions.as_slice()
    }
}

} // verus!
