//! Storage of one forward pass: per layer, the pre-activations `z` followed by the activations `a`.
use vstd::prelude::*;

use crate::layout::{
    lemma_neuron_offset_mono, lemma_neuron_region, lemma_region_sums, n_prev, neuron_offset,
    result_count, result_regions, sum, carve, carve_two,
};
use crate::param_buffer::DisjointError;
use crate::topology::Topology;

verus! {

/// Where one layer's vectors start in the flat buffer.
#[derive(Clone, Copy)]
struct LayerRaw {
    n: usize,
    n_previous: usize,
    z: usize,
    a: usize,
}

/// Read-only view of one layer's results.
pub struct LayerRef<'a, T> {
    /// Number of neurons in this layer.
    pub n: usize,
    /// Number of neurons in the previous layer.
    pub n_previous: usize,
    /// Pre-activations `W a_prev + b`.
    pub z: &'a [T],
    /// Activations `phi(z)`.
    pub a: &'a [T],
}

/// Mutable view of one layer's results.
pub struct LayerMut<'a, T> {
    /// Number of neurons in this layer.
    pub n: usize,
    /// Number of neurons in the previous layer.
    pub n_previous: usize,
    /// Pre-activations `W a_prev + b`.
    pub z: &'a mut [T],
    /// Activations `phi(z)`.
    pub a: &'a mut [T],
}

/// Buffer holding the `z` and `a` vectors of every layer: `z_0, a_0, z_1, a_1, ...`.
pub struct ResultBuffer<T> {
    n_inputs: usize,
    layers: Vec<LayerRaw>,
    buffer: Vec<T>,
}

impl<T> View for ResultBuffer<T> {
    type V = Seq<T>;

    closed spec fn view(&self) -> Seq<T> {
        self.buffer@
    }
}

impl<T> ResultBuffer<T> {
    /// Number of network inputs this buffer was laid out for.
    pub closed spec fn spec_n_inputs(&self) -> nat {
        self.n_inputs as nat
    }

    /// Neuron count of each layer this buffer was laid out for.
    pub closed spec fn sizes(&self) -> Seq<nat> {
        self.layers@.map_values(|l: LayerRaw| l.n as nat)
    }

    /// Start of layer `i`'s `z` vector.
    pub open spec fn z_start(&self, i: int) -> nat {
        2 * neuron_offset(self.sizes(), i)
    }

    /// Start of layer `i`'s `a` vector.
    pub open spec fn a_start(&self, i: int) -> nat {
        self.z_start(i) + self.sizes()[i]
    }

    /// Layer `i`'s pre-activations.
    pub open spec fn zs(&self, i: int) -> Seq<T> {
        self@.subrange(self.z_start(i) as int, self.a_start(i) as int)
    }

    /// Layer `i`'s activations.
    pub open spec fn acts(&self, i: int) -> Seq<T> {
        self@.subrange(self.a_start(i) as int, (self.a_start(i) + self.sizes()[i]) as int)
    }

    /// `n`, `n_previous`, `z` and `a` are those of layer `i`.
    pub open spec fn is_view(&self, i: int, n: usize, n_previous: usize, z: Seq<T>, a: Seq<T>) -> bool {
        &&& n == self.sizes()[i]
        &&& n_previous == n_prev(self.spec_n_inputs(), self.sizes(), i)
        &&& z == self.zs(i)
        &&& a == self.acts(i)
        &&& z.len() == n
        &&& a.len() == n
    }

    /// The flat array with the regions of layers `lo < hi` replaced by `lo_part` and `hi_part`.
    pub open spec fn spliced(&self, lo: int, hi: int, lo_part: Seq<T>, hi_part: Seq<T>) -> Seq<T> {
        self@.subrange(0, self.z_start(lo) as int) + lo_part + self@.subrange(
            (self.a_start(lo) + self.sizes()[lo]) as int,
            self.z_start(hi) as int,
        ) + hi_part + self@.subrange(
            (self.a_start(hi) + self.sizes()[hi]) as int,
            self@.len() as int,
        )
    }

    /// The layer records agree with the layout of the shape, and the buffer has its length.
    pub closed spec fn wf(&self) -> bool {
        &&& self.buffer@.len() == result_count(self.sizes())
        &&& self.buffer@.len() <= usize::MAX
        &&& forall|i: int|
            0 <= i < self.layers@.len() ==> {
                &&& (#[trigger] self.layers@[i]).n_previous == n_prev(
                    self.spec_n_inputs(),
                    self.sizes(),
                    i,
                )
                &&& self.layers@[i].z == self.z_start(i)
                &&& self.layers@[i].a == self.a_start(i)
            }
    }

    /// Lays out a buffer for `topology`, every entry set to `zero`.
    pub fn create<P>(topology: &Topology<P>, zero: T) -> (r: Self)
        where
            T: Copy,
        requires
            0 < result_count(topology.sizes()) <= usize::MAX,
        ensures
            r.wf(),
            r.spec_n_inputs() == topology.spec_n_inputs(),
            r.sizes() == topology.sizes(),
            r@ == Seq::new(result_count(topology.sizes()), |i: int| zero),
    {
        let ghost ni = topology.spec_n_inputs();
        let ghost sizes = topology.sizes();
        let descs = topology.layer_descriptions();
        let mut layers: Vec<LayerRaw> = Vec::new();
        let mut n_previous: usize = topology.n_inputs();
        let mut counter: usize = 0;
        let mut i: usize = 0;
        while i < descs.len()
            invariant
                i <= descs@.len() == sizes.len(),
                forall|j: int| 0 <= j < sizes.len() ==> #[trigger] sizes[j] == descs@[j].n_neurons,
                layers@.len() == i,
                layers@.map_values(|l: LayerRaw| l.n as nat) == sizes.subrange(0, i as int),
                forall|j: int|
                    0 <= j < i ==> {
                        &&& (#[trigger] layers@[j]).n_previous == n_prev(ni, sizes, j)
                        &&& layers@[j].z == 2 * neuron_offset(sizes, j)
                        &&& layers@[j].a == 2 * neuron_offset(sizes, j) + sizes[j]
                    },
                counter == 2 * neuron_offset(sizes, i as int),
                n_previous == n_prev(ni, sizes, i as int),
                result_count(sizes) <= usize::MAX,
            decreases descs@.len() - i,
        {
            let n = descs[i].n_neurons;
            proof {
                lemma_neuron_region(sizes, i as int);
            }
            let z = counter;
            let a = counter + n;
            counter = a + n;
            layers.push(LayerRaw { n, n_previous, z, a });
            proof {
                assert(layers@.map_values(|l: LayerRaw| l.n as nat) =~= sizes.subrange(
                    0,
                    i as int + 1,
                ));
            }
            n_previous = n;
            i = i + 1;
        }
        let mut buffer: Vec<T> = Vec::new();
        let mut k: usize = 0;
        while k < counter
            invariant
                k <= counter,
                buffer@ =~= Seq::new(k as nat, |j: int| zero),
            decreases counter - k,
        {
            buffer.push(zero);
            k = k + 1;
        }
        proof {
            assert(sizes.subrange(0, sizes.len() as int) =~= sizes);
        }
        ResultBuffer { n_inputs: topology.n_inputs(), layers, buffer }
    }

    /// Number of layers.
    pub fn n_layers(&self) -> (r: usize)
        ensures
            r == self.sizes().len(),
    {
        self.layers.len()
    }

    /// Read-only view of layer `index`, or `None` when there is no such layer.
    pub fn layer(&self, index: usize) -> (r: Option<LayerRef<'_, T>>)
        requires
            self.wf(),
        ensures
            r is None <==> index >= self.sizes().len(),
            r matches Some(l) ==> {
                &&& l.n == self.sizes()[index as int]
                &&& l.n_previous == n_prev(self.spec_n_inputs(), self.sizes(), index as int)
                &&& l.z@ == self.zs(index as int)
                &&& l.a@ == self.acts(index as int)
                &&& l.z@.len() == l.n
                &&& l.a@.len() == l.n
            },
    {
        if index < self.layers.len() {
            proof {
                lemma_neuron_region(self.sizes(), index as int);
            }
            let l = self.layers[index];
            let s = self.buffer.as_slice();
            Some(LayerRef { n: l.n, n_previous: l.n_previous, z: &s[l.z..l.a], a: &s[l.a..l.a + l.n] })
        } else {
            None
        }
    }

    /// Sets pre-activation `k` of layer `u`.
    #[verifier::spinoff_prover]
    #[verifier::rlimit(60)]
    pub fn set_z(&mut self, u: usize, k: usize, value: T)
        requires
            old(self).wf(),
            u < old(self).sizes().len(),
            k < old(self).sizes()[u as int],
        ensures
            final(self).wf(),
            final(self).spec_n_inputs() == old(self).spec_n_inputs(),
            final(self).sizes() == old(self).sizes(),
            final(self)@ == old(self)@.update(old(self).z_start(u as int) + k, value),
            final(self).zs(u as int) == old(self).zs(u as int).update(k as int, value),
            final(self).acts(u as int) == old(self).acts(u as int),
            forall|v: int|
                0 <= v < old(self).sizes().len() && v != u ==> #[trigger] final(self).zs(v)
                    == old(self).zs(v),
            forall|v: int|
                0 <= v < old(self).sizes().len() && v != u ==> #[trigger] final(self).acts(v)
                    == old(self).acts(v),
    {
        proof {
            lemma_neuron_region(self.sizes(), u as int);
            self.lemma_layout(u as int, u as int);
        }
        let ghost before = *self;
        let l = self.layers[u];
        self.buffer.set(l.z + k, value);
        proof {
            assert(self.zs(u as int) =~= before.zs(u as int).update(k as int, value));
            assert(self.acts(u as int) =~= before.acts(u as int));
            assert forall|v: int|
                #![trigger self.zs(v)]
                #![trigger self.acts(v)]
                0 <= v < before.sizes().len() && v != u implies self.zs(v) == before.zs(v)
                    && self.acts(v) == before.acts(v) by {
                if v < u {
                    before.lemma_layout(v, u as int);
                } else {
                    before.lemma_layout(u as int, v);
                }
                assert(self.zs(v) =~= before.zs(v));
                assert(self.acts(v) =~= before.acts(v));
            }
        }
    }

    /// Sets activation `k` of layer `u`.
    #[verifier::spinoff_prover]
    #[verifier::rlimit(60)]
    pub fn set_a(&mut self, u: usize, k: usize, value: T)
        requires
            old(self).wf(),
            u < old(self).sizes().len(),
            k < old(self).sizes()[u as int],
        ensures
            final(self).wf(),
            final(self).spec_n_inputs() == old(self).spec_n_inputs(),
            final(self).sizes() == old(self).sizes(),
            final(self)@ == old(self)@.update(old(self).a_start(u as int) + k, value),
            final(self).acts(u as int) == old(self).acts(u as int).update(k as int, value),
            final(self).zs(u as int) == old(self).zs(u as int),
            forall|v: int|
                0 <= v < old(self).sizes().len() && v != u ==> #[trigger] final(self).zs(v)
                    == old(self).zs(v),
            forall|v: int|
                0 <= v < old(self).sizes().len() && v != u ==> #[trigger] final(self).acts(v)
                    == old(self).acts(v),
    {
        proof {
            lemma_neuron_region(self.sizes(), u as int);
            self.lemma_layout(u as int, u as int);
        }
        let ghost before = *self;
        let l = self.layers[u];
        self.buffer.set(l.a + k, value);
        proof {
            assert(self.acts(u as int) =~= before.acts(u as int).update(k as int, value));
            assert(self.zs(u as int) =~= before.zs(u as int));
            assert forall|v: int|
                #![trigger self.zs(v)]
                #![trigger self.acts(v)]
                0 <= v < before.sizes().len() && v != u implies self.zs(v) == before.zs(v)
                    && self.acts(v) == before.acts(v) by {
                if v < u {
                    before.lemma_layout(v, u as int);
                } else {
                    before.lemma_layout(u as int, v);
                }
                assert(self.zs(v) =~= before.zs(v));
                assert(self.acts(v) =~= before.acts(v));
            }
        }
    }

    /// Pre-activation `k` of layer `u`.
    pub fn get_z(&self, u: usize, k: usize) -> (r: T)
        where
            T: Copy,
        requires
            self.wf(),
            u < self.sizes().len(),
            k < self.sizes()[u as int],
        ensures
            r == self.zs(u as int)[k as int],
    {
        proof {
            lemma_neuron_region(self.sizes(), u as int);
        }
        let l = self.layers[u];
        self.buffer[l.z + k]
    }

    /// Activation `k` of layer `u`.
    pub fn get_a(&self, u: usize, k: usize) -> (r: T)
        where
            T: Copy,
        requires
            self.wf(),
            u < self.sizes().len(),
            k < self.sizes()[u as int],
        ensures
            r == self.acts(u as int)[k as int],
    {
        proof {
            lemma_neuron_region(self.sizes(), u as int);
        }
        let l = self.layers[u];
        self.buffer[l.a + k]
    }

    /// The result layout: the layers' regions add up to the buffer's length; layer `i` holds
    /// `n_i` pre-activations directly followed by `n_i` activations; and for layers `i < j`,
    /// layer `i`'s region ends before layer `j`'s begins, inside the buffer.
    pub proof fn lemma_layout(&self, i: int, j: int)
        requires
            self.wf(),
            0 <= i <= j < self.sizes().len(),
        ensures
            sum(result_regions(self.sizes())) == self@.len(),
            self.zs(i).len() == self.sizes()[i],
            self.acts(i).len() == self.sizes()[i],
            self.a_start(i) == self.z_start(i) + self.sizes()[i],
            i < j ==> self.a_start(i) + self.sizes()[i] <= self.z_start(j),
            self.a_start(j) + self.sizes()[j] <= self@.len(),
    {
        lemma_region_sums(self.spec_n_inputs(), self.sizes());
        lemma_neuron_region(self.sizes(), i);
        lemma_neuron_region(self.sizes(), j);
        if i < j {
            lemma_neuron_offset_mono(self.sizes(), i + 1, j);
        }
    }

    /// Read-only view of layer `index`, which must exist.
    pub fn layer_unchecked(&self, index: usize) -> (l: LayerRef<'_, T>)
        requires
            self.wf(),
            index < self.sizes().len(),
        ensures
            self.is_view(index as int, l.n, l.n_previous, l.z@, l.a@),
    {
        self.layer(index).unwrap()
    }

    /// Mutable view of layer `index`, or `None` when there is no such layer. The buffer stays
    /// well formed as long as the view's slices keep their lengths, as they do under indexing.
    pub fn layer_mut(&mut self, index: usize) -> (r: Option<LayerMut<'_, T>>)
        requires
            old(self).wf(),
        ensures
            final(self).spec_n_inputs() == old(self).spec_n_inputs(),
            final(self).sizes() == old(self).sizes(),
            r is None <==> index >= old(self).sizes().len(),
            r is None ==> final(self)@ == old(self)@ && final(self).wf(),
            r matches Some(l) ==> {
                &&& final(l.z)@.len() == l.z@.len() && final(l.a)@.len() == l.a@.len()
                    ==> final(self).wf()
                &&& old(self).is_view(index as int, l.n, l.n_previous, l.z@, l.a@)
                &&& final(self)@ == old(self)@.subrange(0, old(self).z_start(index as int) as int)
                    + final(l.z)@ + final(l.a)@ + old(self)@.subrange(
                    old(self).a_start(index as int) + l.n,
                    old(self)@.len() as int,
                )
            },
    {
        if index >= self.layers.len() {
            return None;
        }
        proof {
            lemma_neuron_region(self.sizes(), index as int);
        }
        let l = self.layers[index];
        let ghost old_self = *self;
        let s = self.buffer.as_mut_slice();
        let (z, rest) = carve(s, l.z, l.a);
        let (a, _after) = carve(rest, 0, l.n);
        assert(a@ =~= old_self.acts(index as int));
        Some(LayerMut { n: l.n, n_previous: l.n_previous, z, a })
    }

    /// Mutable views of two different layers at once, in the order of `indices`. Fails when an
    /// index is not a layer's, else when the two are the same layer. The buffer stays well
    /// formed as long as the views' slices keep their lengths.
    pub fn layer_disjoint_mut(&mut self, indices: [usize; 2]) -> (r: Result<[LayerMut<'_, T>; 2], DisjointError>)
        requires
            old(self).wf(),
        ensures
            final(self).spec_n_inputs() == old(self).spec_n_inputs(),
            final(self).sizes() == old(self).sizes(),
            r == Err::<[LayerMut<'_, T>; 2], _>(DisjointError::IndexOutOfBounds) <==> (indices[0]
                >= old(self).sizes().len() || indices[1] >= old(self).sizes().len()),
            r == Err::<[LayerMut<'_, T>; 2], _>(DisjointError::OverlappingIndices) <==> (indices[0]
                < old(self).sizes().len() && indices[1] < old(self).sizes().len() && indices[0]
                == indices[1]),
            r is Err ==> final(self)@ == old(self)@ && final(self).wf(),
            r matches Ok(ls) ==> {
                &&& old(self).is_view(indices[0] as int, ls[0].n, ls[0].n_previous, ls[0].z@, ls[0].a@)
                &&& old(self).is_view(indices[1] as int, ls[1].n, ls[1].n_previous, ls[1].z@, ls[1].a@)
                &&& indices[0] < indices[1] ==> final(self)@ == old(self).spliced(
                    indices[0] as int,
                    indices[1] as int,
                    final(ls[0].z)@ + final(ls[0].a)@,
                    final(ls[1].z)@ + final(ls[1].a)@,
                )
                &&& indices[1] < indices[0] ==> final(self)@ == old(self).spliced(
                    indices[1] as int,
                    indices[0] as int,
                    final(ls[1].z)@ + final(ls[1].a)@,
                    final(ls[0].z)@ + final(ls[0].a)@,
                )
                &&& final(ls[0].z)@.len() == ls[0].z@.len() && final(ls[0].a)@.len() == ls[0].a@.len()
                    && final(ls[1].z)@.len() == ls[1].z@.len() && final(ls[1].a)@.len()
                    == ls[1].a@.len() ==> final(self).wf()
            },
    {
        let i = indices[0];
        let j = indices[1];
        let n_layers = self.layers.len();
        if i >= n_layers || j >= n_layers {
            return Err(DisjointError::IndexOutOfBounds);
        }
        if i == j {
            return Err(DisjointError::OverlappingIndices);
        }
        let (lo, hi) = if i < j {
            (i, j)
        } else {
            (j, i)
        };
        let (view_lo, view_hi) = self.split_two(lo, hi);
        if i < j {
            let r = [view_lo, view_hi];
            Ok(r)
        } else {
            let r = [view_hi, view_lo];
            Ok(r)
        }
    }

    /// Mutable views of layers `lo < hi`.
    #[verifier::spinoff_prover]
    #[verifier::rlimit(100)]
    fn split_two(&mut self, lo: usize, hi: usize) -> (r: (LayerMut<'_, T>, LayerMut<'_, T>))
        requires
            old(self).wf(),
            lo < hi < old(self).sizes().len(),
        ensures
            final(self).spec_n_inputs() == old(self).spec_n_inputs(),
            final(self).sizes() == old(self).sizes(),
            old(self).is_view(lo as int, r.0.n, r.0.n_previous, r.0.z@, r.0.a@),
            old(self).is_view(hi as int, r.1.n, r.1.n_previous, r.1.z@, r.1.a@),
            final(self)@ == old(self).spliced(
                lo as int,
                hi as int,
                final(r.0.z)@ + final(r.0.a)@,
                final(r.1.z)@ + final(r.1.a)@,
            ),
            final(r.0.z)@.len() == r.0.z@.len() && final(r.0.a)@.len() == r.0.a@.len()
                && final(r.1.z)@.len() == r.1.z@.len() && final(r.1.a)@.len() == r.1.a@.len()
                ==> final(self).wf(),
    {
        proof {
            lemma_neuron_region(self.sizes(), lo as int);
            lemma_neuron_region(self.sizes(), hi as int);
            lemma_neuron_offset_mono(self.sizes(), lo as int + 1, hi as int);
        }
        let l_lo = self.layers[lo];
        let l_hi = self.layers[hi];
        let s = self.buffer.as_mut_slice();
        let (z_lo, a_lo, z_hi, a_hi) = carve_two(s, l_lo.z, l_lo.a, l_lo.a + l_lo.n, l_hi.z, l_hi.a, l_hi.a + l_hi.n);
        (
            LayerMut { n: l_lo.n, n_previous: l_lo.n_previous, z: z_lo, a: a_lo },
            LayerMut { n: l_hi.n, n_previous: l_hi.n_previous, z: z_hi, a: a_hi },
        )
    }
}

} // verus!
