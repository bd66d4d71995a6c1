//! Storage of the network parameters: per layer, a weight matrix followed by a bias vector.
use vstd::prelude::*;

use crate::layout::{
    lemma_param_offset_mono, lemma_param_region, lemma_region_sums, lemma_row_major, n_prev,
    param_count, param_offset, param_regions, sum, weight_len, carve, carve_two,
};
use crate::topology::Topology;

verus! {

/// Where one layer's regions start in the flat buffer.
#[derive(Clone, Copy)]
struct LayerRaw {
    n: usize,
    n_previous: usize,
    w: usize,
    b: usize,
}

/// Read-only view of one layer's parameters.
pub struct LayerRef<'a, T> {
    /// Number of neurons in this layer.
    pub n: usize,
    /// Number of neurons in the previous layer.
    pub n_previous: usize,
    /// Weights, row-major: entry `(k, g)` is at `k * n_previous + g`.
    pub w: &'a [T],
    /// Biases, one per neuron.
    pub b: &'a [T],
}

/// Mutable view of one layer's parameters.
pub struct LayerMut<'a, T> {
    /// Number of neurons in this layer.
    pub n: usize,
    /// Number of neurons in the previous layer.
    pub n_previous: usize,
    /// Weights, row-major: entry `(k, g)` is at `k * n_previous + g`.
    pub w: &'a mut [T],
    /// Biases, one per neuron.
    pub b: &'a mut [T],
}

/// Why mutable views of several layers could not be handed out.
#[derive(Debug, Clone, Copy, PartialEq, Eq, Structural)]
pub enum DisjointError {
    /// An index is not the index of a layer.
    IndexOutOfBounds,
    /// The same layer was asked for twice.
    OverlappingIndices,
}

/// Buffer holding every weight and bias of a network: `W_0, b_0, W_1, b_1, ...`.
pub struct ParamBuffer<T> {
    n_inputs: usize,
    layers: Vec<LayerRaw>,
    buffer: Vec<T>,
}

impl<T> View for ParamBuffer<T> {
    type V = Seq<T>;

    closed spec fn view(&self) -> Seq<T> {
        self.buffer@
    }
}

impl<T> ParamBuffer<T> {
    /// Number of network inputs this buffer was laid out for.
    pub closed spec fn spec_n_inputs(&self) -> nat {
        self.n_inputs as nat
    }

    /// Neuron count of each layer this buffer was laid out for.
    pub closed spec fn sizes(&self) -> Seq<nat> {
        self.layers@.map_values(|l: LayerRaw| l.n as nat)
    }

    /// Start of layer `i`'s weights.
    pub open spec fn w_start(&self, i: int) -> nat {
        param_offset(self.spec_n_inputs(), self.sizes(), i)
    }

    /// Start of layer `i`'s biases.
    pub open spec fn b_start(&self, i: int) -> nat {
        self.w_start(i) + weight_len(self.spec_n_inputs(), self.sizes(), i)
    }

    /// Layer `i`'s weights.
    pub open spec fn weights(&self, i: int) -> Seq<T> {
        self@.subrange(self.w_start(i) as int, self.b_start(i) as int)
    }

    /// Layer `i`'s biases.
    pub open spec fn biases(&self, i: int) -> Seq<T> {
        self@.subrange(self.b_start(i) as int, (self.b_start(i) + self.sizes()[i]) as int)
    }

    /// `n`, `n_previous`, `w` and `b` are those of layer `i`.
    pub open spec fn is_view(&self, i: int, n: usize, n_previous: usize, w: Seq<T>, b: Seq<T>) -> bool {
        &&& n == self.sizes()[i]
        &&& n_previous == n_prev(self.spec_n_inputs(), self.sizes(), i)
        &&& w == self.weights(i)
        &&& b == self.biases(i)
        &&& w.len() == n * n_previous
        &&& b.len() == n
    }

    /// The flat array with the regions of layers `lo < hi` replaced by `lo_part` and `hi_part`.
    pub open spec fn spliced(&self, lo: int, hi: int, lo_part: Seq<T>, hi_part: Seq<T>) -> Seq<T> {
        self@.subrange(0, self.w_start(lo) as int) + lo_part + self@.subrange(
            (self.b_start(lo) + self.sizes()[lo]) as int,
            self.w_start(hi) as int,
        ) + hi_part + self@.subrange(
            (self.b_start(hi) + self.sizes()[hi]) as int,
            self@.len() as int,
        )
    }

    /// The layer records agree with the layout of the shape, and the buffer has its length.
    pub closed spec fn wf(&self) -> bool {
        &&& self.buffer@.len() == param_count(self.spec_n_inputs(), self.sizes())
        &&& self.buffer@.len() <= usize::MAX
        &&& forall|i: int|
            0 <= i < self.layers@.len() ==> {
                &&& (#[trigger] self.layers@[i]).n_previous == n_prev(
                    self.spec_n_inputs(),
                    self.sizes(),
                    i,
                )
                &&& self.layers@[i].w == self.w_start(i)
                &&& self.layers@[i].b == self.b_start(i)
            }
    }

    /// Number of parameters; always the parameter count of the buffer's shape.
    pub fn len(&self) -> (r: usize)
        requires
            self.wf(),
        ensures
            r == self@.len(),
            r == param_count(self.spec_n_inputs(), self.sizes()),
    {
        self.buffer.len()
    }

    /// Lays out a buffer for `topology`, every entry set to `zero`.
    pub fn create<P>(topology: &Topology<P>, zero: T) -> (r: Self)
        where
            T: Copy,
        requires
            0 < param_count(topology.spec_n_inputs(), topology.sizes()) <= usize::MAX,
        ensures
            r.wf(),
            r.spec_n_inputs() == topology.spec_n_inputs(),
            r.sizes() == topology.sizes(),
            r@ == Seq::new(param_count(topology.spec_n_inputs(), topology.sizes()), |i: int| zero),
    {
        let ghost ni = topology.spec_n_inputs();
        let ghost sizes = topology.sizes();
        let descs = topology.layer_descriptions();
        let mut layers: Vec<LayerRaw> = Vec::new();
        let mut n_previous: usize = topology.n_inputs();
        let mut counter: usize = 0;
        let mut i: usize = 0;
        while i < descs.len()
            invariant
                i <= descs@.len() == sizes.len(),
                forall|j: int| 0 <= j < sizes.len() ==> #[trigger] sizes[j] == descs@[j].n_neurons,
                layers@.len() == i,
                layers@.map_values(|l: LayerRaw| l.n as nat) == sizes.subrange(0, i as int),
                forall|j: int|
                    0 <= j < i ==> {
                        &&& #[trigger] layers@[j].n_previous == n_prev(ni, sizes, j)
                        &&& layers@[j].w == param_offset(ni, sizes, j)
                        &&& layers@[j].b == param_offset(ni, sizes, j) + weight_len(ni, sizes, j)
                    },
                counter == param_offset(ni, sizes, i as int),
                n_previous == n_prev(ni, sizes, i as int),
                param_count(ni, sizes) <= usize::MAX,
            decreases descs@.len() - i,
        {
            let n = descs[i].n_neurons;
            proof {
                lemma_param_offset_mono(ni, sizes, i as int + 1, sizes.len() as int);
            }
            let w = counter;
            let b = counter + n * n_previous;
            counter = b + n;
            layers.push(LayerRaw { n, n_previous, w, b });
            proof {
                assert(layers@.map_values(|l: LayerRaw| l.n as nat) =~= sizes.subrange(
                    0,
                    i as int + 1,
                ));
            }
            n_previous = n;
            i = i + 1;
        }
        let mut buffer: Vec<T> = Vec::new();
        let mut k: usize = 0;
        while k < counter
            invariant
                k <= counter,
                buffer@ =~= Seq::new(k as nat, |j: int| zero),
            decreases counter - k,
        {
            buffer.push(zero);
            k = k + 1;
        }
        proof {
            assert(sizes.subrange(0, sizes.len() as int) =~= sizes);
        }
        ParamBuffer { n_inputs: topology.n_inputs(), layers, buffer }
    }

    /// Number of layers.
    pub fn n_layers(&self) -> (r: usize)
        ensures
            r == self.sizes().len(),
    {
        self.layers.len()
    }

    /// The flat parameter array, `W_0, b_0, W_1, b_1, ...`.
    pub fn as_slice(&self) -> (r: &[T])
        ensures
            r@ == self@,
    {
        self.buffer.as_slice()
    }

    /// The flat parameter array, writable. The buffer stays well formed as long as the slice
    /// keeps its length, as it does under indexing.
    pub fn as_mut_slice(&mut self) -> (r: &mut [T])
        requires
            old(self).wf(),
        ensures
            r@ == old(self)@,
            final(self)@ == final(r)@,
            final(self).spec_n_inputs() == old(self).spec_n_inputs(),
            final(self).sizes() == old(self).sizes(),
            final(r)@.len() == r@.len() ==> final(self).wf(),
    {
        self.buffer.as_mut_slice()
    }

    /// Read-only view of layer `index`, or `None` when there is no such layer.
    pub fn layer(&self, index: usize) -> (r: Option<LayerRef<'_, T>>)
        requires
            self.wf(),
        ensures
            r is None <==> index >= self.sizes().len(),
            r matches Some(l) ==> {
                &&& l.n == self.sizes()[index as int]
                &&& l.n_previous == n_prev(self.spec_n_inputs(), self.sizes(), index as int)
                &&& l.w@ == self.weights(index as int)
                &&& l.b@ == self.biases(index as int)
                &&& l.w@.len() == l.n * l.n_previous
                &&& l.b@.len() == l.n
            },
    {
        if index < self.layers.len() {
            proof {
                lemma_param_offset_mono(
                    self.spec_n_inputs(),
                    self.sizes(),
                    index as int + 1,
                    self.sizes().len() as int,
                );
            }
            let l = self.layers[index];
            let s = self.buffer.as_slice();
            Some(LayerRef { n: l.n, n_previous: l.n_previous, w: &s[l.w..l.b], b: &s[l.b..l.b + l.n] })
        } else {
            None
        }
    }

    /// Sets entry `i` of the flat parameter array.
    pub fn set(&mut self, i: usize, value: T)
        requires
            old(self).wf(),
            i < old(self)@.len(),
        ensures
            final(self).wf(),
            final(self).spec_n_inputs() == old(self).spec_n_inputs(),
            final(self).sizes() == old(self).sizes(),
            final(self)@ == old(self)@.update(i as int, value),
    {
        self.buffer.set(i, value);
    }

    /// Sets weight `(k, g)` of layer `u`.
    pub fn set_weight(&mut self, u: usize, k: usize, g: usize, value: T)
        requires
            old(self).wf(),
            u < old(self).sizes().len(),
            k < old(self).sizes()[u as int],
            g < n_prev(old(self).spec_n_inputs(), old(self).sizes(), u as int),
        ensures
            final(self).wf(),
            final(self).spec_n_inputs() == old(self).spec_n_inputs(),
            final(self).sizes() == old(self).sizes(),
            final(self)@ == old(self)@.update(
                old(self).w_start(u as int) + k * n_prev(old(self).spec_n_inputs(), old(self).sizes(), u as int) + g,
                value,
            ),
    {
        proof {
            lemma_param_region(self.spec_n_inputs(), self.sizes(), u as int);
            lemma_row_major(k as int, g as int, self.sizes()[u as int] as int, n_prev(self.spec_n_inputs(), self.sizes(), u as int) as int);
        }
        let l = self.layers[u];
        self.buffer.set(l.w + k * l.n_previous + g, value);
    }

    /// Sets bias `k` of layer `u`.
    pub fn set_bias(&mut self, u: usize, k: usize, value: T)
        requires
            old(self).wf(),
            u < old(self).sizes().len(),
            k < old(self).sizes()[u as int],
        ensures
            final(self).wf(),
            final(self).spec_n_inputs() == old(self).spec_n_inputs(),
            final(self).sizes() == old(self).sizes(),
            final(self)@ == old(self)@.update(old(self).b_start(u as int) + k, value),
    {
        proof {
            lemma_param_region(self.spec_n_inputs(), self.sizes(), u as int);
        }
        let l = self.layers[u];
        self.buffer.set(l.b + k, value);
    }

    /// A well-formed buffer has one entry per parameter of its shape.
    pub proof fn lemma_len_is_count(&self)
        requires
            self.wf(),
        ensures
            self@.len() == param_count(self.spec_n_inputs(), self.sizes()),
    {
    }

    /// The parameter layout: the layers' regions add up to the buffer's length; layer `i` holds
    /// an `n_i` by `n_{i-1}` weight matrix directly followed by `n_i` biases; and for layers
    /// `i < j`, layer `i`'s region ends before layer `j`'s begins, inside the buffer.
    pub proof fn lemma_layout(&self, i: int, j: int)
        requires
            self.wf(),
            0 <= i <= j < self.sizes().len(),
        ensures
            sum(param_regions(self.spec_n_inputs(), self.sizes())) == self@.len(),
            self.weights(i).len() == self.sizes()[i] * n_prev(self.spec_n_inputs(), self.sizes(), i),
            self.biases(i).len() == self.sizes()[i],
            self.b_start(i) == self.w_start(i) + self.weights(i).len(),
            i < j ==> self.b_start(i) + self.sizes()[i] <= self.w_start(j),
            self.b_start(j) + self.sizes()[j] <= self@.len(),
    {
        lemma_region_sums(self.spec_n_inputs(), self.sizes());
        lemma_param_region(self.spec_n_inputs(), self.sizes(), i);
        lemma_param_region(self.spec_n_inputs(), self.sizes(), j);
        if i < j {
            lemma_param_offset_mono(self.spec_n_inputs(), self.sizes(), i + 1, j);
        }
    }

    /// Read-only view of layer `index`, which must exist.
    pub fn layer_unchecked(&self, index: usize) -> (l: LayerRef<'_, T>)
        requires
            self.wf(),
            index < self.sizes().len(),
        ensures
            l.n == self.sizes()[index as int],
            l.n_previous == n_prev(self.spec_n_inputs(), self.sizes(), index as int),
            l.w@ == self.weights(index as int),
            l.b@ == self.biases(index as int),
    {
        self.layer(index).unwrap()
    }

    /// Mutable view of layer `index`, or `None` when there is no such layer. The buffer stays
    /// well formed as long as the view's slices keep their lengths, as they do under indexing.
    pub fn layer_mut(&mut self, index: usize) -> (r: Option<LayerMut<'_, T>>)
        requires
            old(self).wf(),
        ensures
            final(self).spec_n_inputs() == old(self).spec_n_inputs(),
            final(self).sizes() == old(self).sizes(),
            r is None <==> index >= old(self).sizes().len(),
            r is None ==> final(self)@ == old(self)@ && final(self).wf(),
            r matches Some(l) ==> {
                &&& final(l.w)@.len() == l.w@.len() && final(l.b)@.len() == l.b@.len()
                    ==> final(self).wf()
                &&& l.n == old(self).sizes()[index as int]
                &&& l.n_previous == n_prev(old(self).spec_n_inputs(), old(self).sizes(), index as int)
                &&& l.w@ == old(self).weights(index as int)
                &&& l.b@ == old(self).biases(index as int)
                &&& l.w@.len() == l.n * l.n_previous
                &&& l.b@.len() == l.n
                &&& final(self)@ == old(self)@.subrange(0, old(self).w_start(index as int) as int)
                    + final(l.w)@ + final(l.b)@ + old(self)@.subrange(
                    old(self).b_start(index as int) + l.n,
                    old(self)@.len() as int,
                )
            },
    {
        if index >= self.layers.len() {
            return None;
        }
        proof {
            lemma_param_region(self.spec_n_inputs(), self.sizes(), index as int);
        }
        let l = self.layers[index];
        let s = self.buffer.as_mut_slice();
        let (w, rest) = carve(s, l.w, l.b);
        let (b, _after) = carve(rest, 0, l.n);
        Some(LayerMut { n: l.n, n_previous: l.n_previous, w, b })
    }

    /// Mutable views of two different layers at once, in the order of `indices`. Fails when an
    /// index is not a layer's, else when the two are the same layer. The buffer stays well
    /// formed as long as the views' slices keep their lengths.
    pub fn layer_disjoint_mut(&mut self, indices: [usize; 2]) -> (r: Result<[LayerMut<'_, T>; 2], DisjointError>)
        requires
            old(self).wf(),
        ensures
            final(self).spec_n_inputs() == old(self).spec_n_inputs(),
            final(self).sizes() == old(self).sizes(),
            r == Err::<[LayerMut<'_, T>; 2], _>(DisjointError::IndexOutOfBounds) <==> (indices[0]
                >= old(self).sizes().len() || indices[1] >= old(self).sizes().len()),
            r == Err::<[LayerMut<'_, T>; 2], _>(DisjointError::OverlappingIndices) <==> (indices[0]
                < old(self).sizes().len() && indices[1] < old(self).sizes().len() && indices[0]
                == indices[1]),
            r is Err ==> final(self)@ == old(self)@ && final(self).wf(),
            r matches Ok(ls) ==> {
                &&& old(self).is_view(indices[0] as int, ls[0].n, ls[0].n_previous, ls[0].w@, ls[0].b@)
                &&& old(self).is_view(indices[1] as int, ls[1].n, ls[1].n_previous, ls[1].w@, ls[1].b@)
                &&& indices[0] < indices[1] ==> final(self)@ == old(self).spliced(
                    indices[0] as int,
                    indices[1] as int,
                    final(ls[0].w)@ + final(ls[0].b)@,
                    final(ls[1].w)@ + final(ls[1].b)@,
                )
                &&& indices[1] < indices[0] ==> final(self)@ == old(self).spliced(
                    indices[1] as int,
                    indices[0] as int,
                    final(ls[1].w)@ + final(ls[1].b)@,
                    final(ls[0].w)@ + final(ls[0].b)@,
                )
                &&& final(ls[0].w)@.len() == ls[0].w@.len() && final(ls[0].b)@.len() == ls[0].b@.len()
                    && final(ls[1].w)@.len() == ls[1].w@.len() && final(ls[1].b)@.len()
                    == ls[1].b@.len() ==> final(self).wf()
            },
    {
        let i = indices[0];
        let j = indices[1];
        let n_layers = self.layers.len();
        if i >= n_layers || j >= n_layers {
            return Err(DisjointError::IndexOutOfBounds);
        }
        if i == j {
            return Err(DisjointError::OverlappingIndices);
        }
        let (lo, hi) = if i < j {
            (i, j)
        } else {
            (j, i)
        };
        let (view_lo, view_hi) = self.split_two(lo, hi);
        if i < j {
            let r = [view_lo, view_hi];
            Ok(r)
        } else {
            let r = [view_hi, view_lo];
            Ok(r)
        }
    }

    /// Mutable views of layers `lo < hi`.
    #[verifier::spinoff_prover]
    #[verifier::rlimit(100)]
    fn split_two(&mut self, lo: usize, hi: usize) -> (r: (LayerMut<'_, T>, LayerMut<'_, T>))
        requires
            old(self).wf(),
            lo < hi < old(self).sizes().len(),
        ensures
            final(self).spec_n_inputs() == old(self).spec_n_inputs(),
            final(self).sizes() == old(self).sizes(),
            old(self).is_view(lo as int, r.0.n, r.0.n_previous, r.0.w@, r.0.b@),
            old(self).is_view(hi as int, r.1.n, r.1.n_previous, r.1.w@, r.1.b@),
            final(self)@ == old(self).spliced(
                lo as int,
                hi as int,
                final(r.0.w)@ + final(r.0.b)@,
                final(r.1.w)@ + final(r.1.b)@,
            ),
            final(r.0.w)@.len() == r.0.w@.len() && final(r.0.b)@.len() == r.0.b@.len()
                && final(r.1.w)@.len() == r.1.w@.len() && final(r.1.b)@.len() == r.1.b@.len()
                ==> final(self).wf(),
    {
        proof {
            lemma_param_region(self.spec_n_inputs(), self.sizes(), lo as int);
            lemma_param_region(self.spec_n_inputs(), self.sizes(), hi as int);
            lemma_param_offset_mono(self.spec_n_inputs(), self.sizes(), lo as int + 1, hi as int);
        }
        let l_lo = self.layers[lo];
        let l_hi = self.layers[hi];
        let s = self.buffer.as_mut_slice();
        let (w_lo, b_lo, w_hi, b_hi) = carve_two(s, l_lo.w, l_lo.b, l_lo.b + l_lo.n, l_hi.w, l_hi.b, l_hi.b + l_hi.n);
        (
            LayerMut { n: l_lo.n, n_previous: l_lo.n_previous, w: w_lo, b: b_lo },
            LayerMut { n: l_hi.n, n_previous: l_hi.n_previous, w: w_hi, b: b_hi },
        )
    }
}

} // verus!
