//! Storage of back-propagation: per layer the gradient accumulators `dw` and `db`, laid out as
//! the parameters, followed by one error-signal vector `da` per layer.
use vstd::prelude::*;

use crate::layout::{
    deriv_count, deriv_regions, lemma_counts_bounded, lemma_find_layer, lemma_neuron_offset_mono,
    lemma_neuron_region, lemma_param_offset_mono, lemma_param_region, lemma_region_sums,
    lemma_row_major, n_prev, neuron_offset, param_count, param_offset, sum, weight_len, carve_six, carve_two,
};
use crate::param_buffer::DisjointError;
use crate::topology::Topology;

verus! {

/// Where one layer's regions start in the flat buffer.
#[derive(Clone, Copy)]
struct LayerRaw {
    n: usize,
    n_previous: usize,
    dw: usize,
    db: usize,
    da: usize,
}

/// Read-only view of one layer's derivatives.
pub struct LayerRef<'a, T> {
    /// Number of neurons in this layer.
    pub n: usize,
    /// Number of neurons in the previous layer.
    pub n_previous: usize,
    /// Gradient of the batch loss by the weights, row-major as the weights.
    pub dw: &'a [T],
    /// Gradient of the batch loss by the biases.
    pub db: &'a [T],
    /// Gradient of one sample's loss by this layer's activations; rewritten per sample.
    pub da: &'a [T],
}

/// Mutable view of one layer's derivatives.
pub struct LayerMut<'a, T> {
    /// Number of neurons in this layer.
    pub n: usize,
    /// Number of neurons in the previous layer.
    pub n_previous: usize,
    /// Gradient of the batch loss by the weights, row-major as the weights.
    pub dw: &'a mut [T],
    /// Gradient of the batch loss by the biases.
    pub db: &'a mut [T],
    /// Gradient of one sample's loss by this layer's activations; rewritten per sample.
    pub da: &'a mut [T],
}

/// Buffer holding `dw_0, db_0, dw_1, db_1, ..., da_0, da_1, ...`.
pub struct DerivBuffer<T> {
    n_inputs: usize,
    layers: Vec<LayerRaw>,
    da_start: usize,
    buffer: Vec<T>,
}

impl<T> View for DerivBuffer<T> {
    type V = Seq<T>;

    closed spec fn view(&self) -> Seq<T> {
        self.buffer@
    }
}

impl<T> DerivBuffer<T> {
    /// Number of network inputs this buffer was laid out for.
    pub closed spec fn spec_n_inputs(&self) -> nat {
        self.n_inputs as nat
    }

    /// Neuron count of each layer this buffer was laid out for.
    pub closed spec fn sizes(&self) -> Seq<nat> {
        self.layers@.map_values(|l: LayerRaw| l.n as nat)
    }

    /// Length of the `dw`/`db` section, which is the parameter count.
    pub open spec fn spec_n_params(&self) -> nat {
        param_count(self.spec_n_inputs(), self.sizes())
    }

    /// Start of layer `i`'s `dw`.
    pub open spec fn dw_start(&self, i: int) -> nat {
        param_offset(self.spec_n_inputs(), self.sizes(), i)
    }

    /// Start of layer `i`'s `db`.
    pub open spec fn db_start(&self, i: int) -> nat {
        self.dw_start(i) + weight_len(self.spec_n_inputs(), self.sizes(), i)
    }

    /// Start of layer `i`'s `da`.
    pub open spec fn da_start(&self, i: int) -> nat {
        self.spec_n_params() + neuron_offset(self.sizes(), i)
    }

    /// Layer `i`'s weight gradients.
    pub open spec fn dws(&self, i: int) -> Seq<T> {
        self@.subrange(self.dw_start(i) as int, self.db_start(i) as int)
    }

    /// Layer `i`'s bias gradients.
    pub open spec fn dbs(&self, i: int) -> Seq<T> {
        self@.subrange(self.db_start(i) as int, (self.db_start(i) + self.sizes()[i]) as int)
    }

    /// Layer `i`'s error signal.
    pub open spec fn das(&self, i: int) -> Seq<T> {
        self@.subrange(self.da_start(i) as int, (self.da_start(i) + self.sizes()[i]) as int)
    }

    /// `n`, `n_previous`, `dw`, `db` and `da` are those of layer `i`.
    pub open spec fn is_view(
        &self,
        i: int,
        n: usize,
        n_previous: usize,
        dw: Seq<T>,
        db: Seq<T>,
        da: Seq<T>,
    ) -> bool {
        &&& n == self.sizes()[i]
        &&& n_previous == n_prev(self.spec_n_inputs(), self.sizes(), i)
        &&& dw == self.dws(i)
        &&& db == self.dbs(i)
        &&& da == self.das(i)
        &&& dw.len() == n * n_previous
        &&& db.len() == n
        &&& da.len() == n
    }

    /// The flat array with the regions of layers `lo < hi` replaced by the given parts.
    pub open spec fn spliced(
        &self,
        lo: int,
        hi: int,
        lo_dw: Seq<T>,
        lo_db: Seq<T>,
        hi_dw: Seq<T>,
        hi_db: Seq<T>,
        lo_da: Seq<T>,
        hi_da: Seq<T>,
    ) -> Seq<T> {
        self@.subrange(0, self.dw_start(lo) as int) + lo_dw + lo_db + self@.subrange(
            (self.db_start(lo) + self.sizes()[lo]) as int,
            self.dw_start(hi) as int,
        ) + hi_dw + hi_db + self@.subrange(
            (self.db_start(hi) + self.sizes()[hi]) as int,
            self.da_start(lo) as int,
        ) + lo_da + self@.subrange(
            (self.da_start(lo) + self.sizes()[lo]) as int,
            self.da_start(hi) as int,
        ) + hi_da + self@.subrange(
            (self.da_start(hi) + self.sizes()[hi]) as int,
            self@.len() as int,
        )
    }

    /// The layer records agree with the layout of the shape, and the buffer has its length.
    pub closed spec fn wf(&self) -> bool {
        &&& self.buffer@.len() == deriv_count(self.spec_n_inputs(), self.sizes())
        &&& self.buffer@.len() <= usize::MAX
        &&& self.da_start == self.spec_n_params()
        &&& forall|i: int|
            0 <= i < self.layers@.len() ==> {
                &&& (#[trigger] self.layers@[i]).n_previous == n_prev(
                    self.spec_n_inputs(),
                    self.sizes(),
                    i,
                )
                &&& self.layers@[i].dw == self.dw_start(i)
                &&& self.layers@[i].db == self.db_start(i)
                &&& self.layers@[i].da == self.da_start(i)
            }
    }

    /// Lays out a buffer for `topology`, every entry set to `zero`.
    #[verifier::spinoff_prover]
    #[verifier::rlimit(100)]
    pub fn create<P>(topology: &Topology<P>, zero: T) -> (r: Self)
        where
            T: Copy,
        requires
            0 < param_count(topology.spec_n_inputs(), topology.sizes()),
            deriv_count(topology.spec_n_inputs(), topology.sizes()) <= usize::MAX,
        ensures
            r.wf(),
            r.spec_n_inputs() == topology.spec_n_inputs(),
            r.sizes() == topology.sizes(),
            r@ == Seq::new(deriv_count(topology.spec_n_inputs(), topology.sizes()), |i: int| zero),
    {
        let ghost ni = topology.spec_n_inputs();
        let ghost sizes = topology.sizes();
        let descs = topology.layer_descriptions();
        proof {
            lemma_counts_bounded(ni, sizes);
        }
        let da_start = topology.n_params();
        let mut n_previous: usize = topology.n_inputs();
        let mut i: usize = 0;
        let mut layers: Vec<LayerRaw> = Vec::new();
        let mut counter_params: usize = 0;
        let mut counter_da: usize = da_start;
        while i < descs.len()
            invariant
                i <= descs@.len() == sizes.len(),
                forall|j: int| 0 <= j < sizes.len() ==> #[trigger] sizes[j] == descs@[j].n_neurons,
                da_start == param_count(ni, sizes),
                layers@.len() == i,
                layers@.map_values(|l: LayerRaw| l.n as nat) == sizes.subrange(0, i as int),
                forall|j: int|
                    0 <= j < i ==> {
                        &&& (#[trigger] layers@[j]).n_previous == n_prev(ni, sizes, j)
                        &&& layers@[j].dw == param_offset(ni, sizes, j)
                        &&& layers@[j].db == param_offset(ni, sizes, j) + weight_len(ni, sizes, j)
                        &&& layers@[j].da == da_start + neuron_offset(sizes, j)
                    },
                counter_params == param_offset(ni, sizes, i as int),
                counter_da == da_start + neuron_offset(sizes, i as int),
                n_previous == n_prev(ni, sizes, i as int),
                deriv_count(ni, sizes) <= usize::MAX,
            decreases descs@.len() - i,
        {
            let n = descs[i].n_neurons;
            proof {
                lemma_param_region(ni, sizes, i as int);
                lemma_neuron_region(sizes, i as int);
            }
            let dw = counter_params;
            let db = counter_params + n * n_previous;
            counter_params = db + n;
            let da = counter_da;
            counter_da = counter_da + n;
            layers.push(LayerRaw { n, n_previous, dw, db, da });
            proof {
                assert(layers@.map_values(|l: LayerRaw| l.n as nat) =~= sizes.subrange(
                    0,
                    i as int + 1,
                ));
            }
            n_previous = n;
            i = i + 1;
        }
        let mut buffer: Vec<T> = Vec::new();
        let mut k: usize = 0;
        while k < counter_da
            invariant
                k <= counter_da,
                buffer@ =~= Seq::new(k as nat, |j: int| zero),
            decreases counter_da - k,
        {
            buffer.push(zero);
            k = k + 1;
        }
        proof {
            assert(sizes.subrange(0, sizes.len() as int) =~= sizes);
        }
        DerivBuffer { n_inputs: topology.n_inputs(), layers, da_start, buffer }
    }

    /// Number of layers.
    pub fn n_layers(&self) -> (r: usize)
        ensures
            r == self.sizes().len(),
    {
        self.layers.len()
    }

    /// Length of the `dw`/`db` section.
    pub fn n_params(&self) -> (r: usize)
        requires
            self.wf(),
        ensures
            r == self.spec_n_params(),
            r <= self@.len(),
    {
        self.da_start
    }

    /// The `dw`/`db` section, laid out as a parameter buffer.
    pub fn params(&self) -> (r: &[T])
        requires
            self.wf(),
        ensures
            r@ == self@.subrange(0, self.spec_n_params() as int),
    {
        let s = self.buffer.as_slice();
        &s[0..self.da_start]
    }

    /// Read-only view of layer `index`, or `None` when there is no such layer.
    pub fn layer(&self, index: usize) -> (r: Option<LayerRef<'_, T>>)
        requires
            self.wf(),
        ensures
            r is None <==> index >= self.sizes().len(),
            r matches Some(l) ==> {
                &&& l.n == self.sizes()[index as int]
                &&& l.n_previous == n_prev(self.spec_n_inputs(), self.sizes(), index as int)
                &&& l.dw@ == self.dws(index as int)
                &&& l.db@ == self.dbs(index as int)
                &&& l.da@ == self.das(index as int)
                &&& l.dw@.len() == l.n * l.n_previous
                &&& l.db@.len() == l.n
                &&& l.da@.len() == l.n
            },
    {
        if index < self.layers.len() {
            proof {
                self.lemma_regions(index as int);
            }
            let l = self.layers[index];
            let s = self.buffer.as_slice();
            Some(
                LayerRef {
                    n: l.n,
                    n_previous: l.n_previous,
                    dw: &s[l.dw..l.db],
                    db: &s[l.db..l.db + l.n],
                    da: &s[l.da..l.da + l.n],
                },
            )
        } else {
            None
        }
    }

    /// Layer `i`'s regions lie inside the buffer.
    proof fn lemma_regions(&self, i: int)
        requires
            self.wf(),
            0 <= i < self.sizes().len(),
        ensures
            self.db_start(i) + self.sizes()[i] <= self.spec_n_params(),
            self.da_start(i) + self.sizes()[i] <= self@.len(),
    {
        lemma_param_region(self.spec_n_inputs(), self.sizes(), i);
        lemma_neuron_region(self.sizes(), i);
    }

    /// Two buffers of one shape whose `dw` and `db` views agree have the same `dw`/`db` section.
    #[verifier::spinoff_prover]
    #[verifier::rlimit(100)]
    pub proof fn lemma_params_from_views(&self, other: &Self)
        requires
            self.wf(),
            other.wf(),
            other.spec_n_inputs() == self.spec_n_inputs(),
            other.sizes() == self.sizes(),
            forall|u: int|
                #![trigger self.dws(u)]
                #![trigger self.dbs(u)]
                0 <= u < self.sizes().len() ==> self.dws(u) == other.dws(u) && self.dbs(u)
                    == other.dbs(u),
        ensures
            forall|j: int| 0 <= j < self.spec_n_params() ==> #[trigger] self@[j] == other@[j],
    {
        assert forall|j: int| 0 <= j < self.spec_n_params() implies #[trigger] self@[j] == other@[j] by {
            let u = lemma_find_layer(self.spec_n_inputs(), self.sizes(), j, self.sizes().len() as int);
            self.lemma_layout(u, u);
            other.lemma_layout(u, u);
            lemma_param_region(self.spec_n_inputs(), self.sizes(), u);
            if j < self.db_start(u) {
                assert(self.dws(u)[j - self.dw_start(u)] == other.dws(u)[j - self.dw_start(u)]);
            } else {
                assert(self.dbs(u)[j - self.db_start(u)] == other.dbs(u)[j - self.db_start(u)]);
            }
        }
    }

    /// How an update of entry `idx` changes the `dws` views.
    #[verifier::spinoff_prover]
    #[verifier::rlimit(60)]
    proof fn lemma_update_dws(&self, new: Self, idx: int, value: T)
        requires
            self.wf(),
            new.spec_n_inputs() == self.spec_n_inputs(),
            new.sizes() == self.sizes(),
            0 <= idx < self@.len(),
            new@ == self@.update(idx, value),
        ensures
            forall|v: int|
                #![trigger new.dws(v)]
                0 <= v < self.sizes().len() ==> if self.dw_start(v) <= idx < self.db_start(v) {
                    new.dws(v) == self.dws(v).update(idx - self.dw_start(v), value)
                } else {
                    new.dws(v) == self.dws(v)
                },
    {
        assert forall|v: int| 0 <= v < self.sizes().len() implies if self.dw_start(v) <= idx
            < self.db_start(v) {
            #[trigger] new.dws(v) == self.dws(v).update(idx - self.dw_start(v), value)
        } else {
            new.dws(v) == self.dws(v)
        } by {
            self.lemma_layout(v, v);
            if self.dw_start(v) <= idx < self.db_start(v) {
                assert(new.dws(v) =~= self.dws(v).update(idx - self.dw_start(v), value));
            } else {
                assert(new.dws(v) =~= self.dws(v));
            }
        }
    }

    /// How an update of entry `idx` changes the `dbs` views.
    #[verifier::spinoff_prover]
    #[verifier::rlimit(60)]
    proof fn lemma_update_dbs(&self, new: Self, idx: int, value: T)
        requires
            self.wf(),
            new.spec_n_inputs() == self.spec_n_inputs(),
            new.sizes() == self.sizes(),
            0 <= idx < self@.len(),
            new@ == self@.update(idx, value),
        ensures
            forall|v: int|
                #![trigger new.dbs(v)]
                0 <= v < self.sizes().len() ==> if self.db_start(v) <= idx < self.db_start(v)
                    + self.sizes()[v] {
                    new.dbs(v) == self.dbs(v).update(idx - self.db_start(v), value)
                } else {
                    new.dbs(v) == self.dbs(v)
                },
    {
        assert forall|v: int| 0 <= v < self.sizes().len() implies if self.db_start(v) <= idx
            < self.db_start(v) + self.sizes()[v] {
            #[trigger] new.dbs(v) == self.dbs(v).update(idx - self.db_start(v), value)
        } else {
            new.dbs(v) == self.dbs(v)
        } by {
            self.lemma_layout(v, v);
            if self.db_start(v) <= idx < self.db_start(v) + self.sizes()[v] {
                assert(new.dbs(v) =~= self.dbs(v).update(idx - self.db_start(v), value));
            } else {
                assert(new.dbs(v) =~= self.dbs(v));
            }
        }
    }

    /// How an update of entry `idx` changes the `das` views.
    #[verifier::spinoff_prover]
    #[verifier::rlimit(60)]
    proof fn lemma_update_das(&self, new: Self, idx: int, value: T)
        requires
            self.wf(),
            new.spec_n_inputs() == self.spec_n_inputs(),
            new.sizes() == self.sizes(),
            0 <= idx < self@.len(),
            new@ == self@.update(idx, value),
        ensures
            forall|v: int|
                #![trigger new.das(v)]
                0 <= v < self.sizes().len() ==> if self.da_start(v) <= idx < self.da_start(v)
                    + self.sizes()[v] {
                    new.das(v) == self.das(v).update(idx - self.da_start(v), value)
                } else {
                    new.das(v) == self.das(v)
                },
    {
        assert forall|v: int| 0 <= v < self.sizes().len() implies if self.da_start(v) <= idx
            < self.da_start(v) + self.sizes()[v] {
            #[trigger] new.das(v) == self.das(v).update(idx - self.da_start(v), value)
        } else {
            new.das(v) == self.das(v)
        } by {
            self.lemma_layout(v, v);
            if self.da_start(v) <= idx < self.da_start(v) + self.sizes()[v] {
                assert(new.das(v) =~= self.das(v).update(idx - self.da_start(v), value));
            } else {
                assert(new.das(v) =~= self.das(v));
            }
        }
    }

    /// Sets entry `i` of the `dw`/`db` section.
    pub fn set_param(&mut self, i: usize, value: T)
        requires
            old(self).wf(),
            i < old(self).spec_n_params(),
        ensures
            final(self).wf(),
            final(self).spec_n_inputs() == old(self).spec_n_inputs(),
            final(self).sizes() == old(self).sizes(),
            final(self)@ == old(self)@.update(i as int, value),
    {
        self.buffer.set(i, value);
    }

    /// Sets weight gradient `(k, g)` of layer `u`.
    #[verifier::spinoff_prover]
    #[verifier::rlimit(60)]
    pub fn set_dw(&mut self, u: usize, k: usize, g: usize, value: T)
        requires
            old(self).wf(),
            u < old(self).sizes().len(),
            k < old(self).sizes()[u as int],
            g < n_prev(old(self).spec_n_inputs(), old(self).sizes(), u as int),
        ensures
            final(self).wf(),
            final(self).spec_n_inputs() == old(self).spec_n_inputs(),
            final(self).sizes() == old(self).sizes(),
            final(self)@ == old(self)@.update(
                old(self).dw_start(u as int) + k * n_prev(old(self).spec_n_inputs(), old(self).sizes(), u as int) + g,
                value,
            ),
            final(self).dws(u as int) == old(self).dws(u as int).update(
                k * n_prev(old(self).spec_n_inputs(), old(self).sizes(), u as int) + g,
                value,
            ),
            forall|v: int|
                0 <= v < old(self).sizes().len() && v != u ==> #[trigger] final(self).dws(v)
                    == old(self).dws(v),
            forall|v: int|
                0 <= v < old(self).sizes().len() ==> #[trigger] final(self).dbs(v) == old(self).dbs(v),
            forall|v: int|
                0 <= v < old(self).sizes().len() ==> #[trigger] final(self).das(v) == old(self).das(v),
    {
        proof {
            self.lemma_regions(u as int);
            lemma_row_major(k as int, g as int, self.sizes()[u as int] as int, n_prev(self.spec_n_inputs(), self.sizes(), u as int) as int);
        }
        let ghost before = *self;
        let l = self.layers[u];
        self.buffer.set(l.dw + k * l.n_previous + g, value);
        proof {
            let idx = l.dw + k * l.n_previous + g;
            before.lemma_update_dws(*self, idx as int, value);
            before.lemma_update_dbs(*self, idx as int, value);
            before.lemma_update_das(*self, idx as int, value);
            assert forall|v: int|
                #![trigger before.db_start(v)]
                #![trigger before.da_start(v)]
                0 <= v < before.sizes().len() implies !(before.db_start(v) <= idx
                < before.db_start(v) + before.sizes()[v]) && !(before.da_start(v) <= idx
                < before.da_start(v) + before.sizes()[v]) && (v != u ==> !(before.dw_start(v)
                <= idx < before.db_start(v))) by {
                if v < u {
                    before.lemma_layout(v, u as int);
                } else {
                    before.lemma_layout(u as int, v);
                }
            }
        }
    }

    /// Sets bias gradient `k` of layer `u`.
    #[verifier::spinoff_prover]
    #[verifier::rlimit(60)]
    pub fn set_db(&mut self, u: usize, k: usize, value: T)
        requires
            old(self).wf(),
            u < old(self).sizes().len(),
            k < old(self).sizes()[u as int],
        ensures
            final(self).wf(),
            final(self).spec_n_inputs() == old(self).spec_n_inputs(),
            final(self).sizes() == old(self).sizes(),
            final(self)@ == old(self)@.update(old(self).db_start(u as int) + k, value),
            final(self).dbs(u as int) == old(self).dbs(u as int).update(k as int, value),
            forall|v: int|
                0 <= v < old(self).sizes().len() ==> #[trigger] final(self).dws(v) == old(self).dws(v),
            forall|v: int|
                0 <= v < old(self).sizes().len() && v != u ==> #[trigger] final(self).dbs(v)
                    == old(self).dbs(v),
            forall|v: int|
                0 <= v < old(self).sizes().len() ==> #[trigger] final(self).das(v) == old(self).das(v),
    {
        proof {
            self.lemma_regions(u as int);
        }
        let ghost before = *self;
        let l = self.layers[u];
        self.buffer.set(l.db + k, value);
        proof {
            let idx = l.db + k;
            before.lemma_update_dws(*self, idx as int, value);
            before.lemma_update_dbs(*self, idx as int, value);
            before.lemma_update_das(*self, idx as int, value);
            assert forall|v: int|
                #![trigger before.db_start(v)]
                #![trigger before.da_start(v)]
                0 <= v < before.sizes().len() implies !(before.dw_start(v) <= idx
                < before.db_start(v)) && !(before.da_start(v) <= idx < before.da_start(v)
                + before.sizes()[v]) && (v != u ==> !(before.db_start(v) <= idx < before.db_start(v)
                + before.sizes()[v])) by {
                if v < u {
                    before.lemma_layout(v, u as int);
                } else {
                    before.lemma_layout(u as int, v);
                }
            }
        }
    }

    /// Sets error signal `k` of layer `u`.
    #[verifier::spinoff_prover]
    #[verifier::rlimit(60)]
    pub fn set_da(&mut self, u: usize, k: usize, value: T)
        requires
            old(self).wf(),
            u < old(self).sizes().len(),
            k < old(self).sizes()[u as int],
        ensures
            final(self).wf(),
            final(self).spec_n_inputs() == old(self).spec_n_inputs(),
            final(self).sizes() == old(self).sizes(),
            final(self)@ == old(self)@.update(old(self).da_start(u as int) + k, value),
            final(self).das(u as int) == old(self).das(u as int).update(k as int, value),
            forall|v: int|
                0 <= v < old(self).sizes().len() ==> #[trigger] final(self).dws(v) == old(self).dws(v),
            forall|v: int|
                0 <= v < old(self).sizes().len() ==> #[trigger] final(self).dbs(v) == old(self).dbs(v),
            forall|v: int|
                0 <= v < old(self).sizes().len() && v != u ==> #[trigger] final(self).das(v)
                    == old(self).das(v),
    {
        proof {
            self.lemma_regions(u as int);
        }
        let ghost before = *self;
        let l = self.layers[u];
        self.buffer.set(l.da + k, value);
        proof {
            let idx = l.da + k;
            before.lemma_update_dws(*self, idx as int, value);
            before.lemma_update_dbs(*self, idx as int, value);
            before.lemma_update_das(*self, idx as int, value);
            assert forall|v: int|
                #![trigger before.db_start(v)]
                #![trigger before.da_start(v)]
                0 <= v < before.sizes().len() implies !(before.dw_start(v) <= idx
                < before.db_start(v)) && !(before.db_start(v) <= idx < before.db_start(v)
                + before.sizes()[v]) && (v != u ==> !(before.da_start(v) <= idx < before.da_start(v)
                + before.sizes()[v])) by {
                if v < u {
                    before.lemma_layout(v, u as int);
                } else {
                    before.lemma_layout(u as int, v);
                }
            }
        }
    }

    /// Entry `i` of the `dw`/`db` section.
    pub fn get_param(&self, i: usize) -> (r: T)
        where
            T: Copy,
        requires
            self.wf(),
            i < self.spec_n_params(),
        ensures
            r == self@[i as int],
    {
        self.buffer[i]
    }

    /// Weight gradient `(k, g)` of layer `u`.
    #[verifier::spinoff_prover]
    #[verifier::rlimit(60)]
    pub fn get_dw(&self, u: usize, k: usize, g: usize) -> (r: T)
        where
            T: Copy,
        requires
            self.wf(),
            u < self.sizes().len(),
            k < self.sizes()[u as int],
            g < n_prev(self.spec_n_inputs(), self.sizes(), u as int),
        ensures
            r == self.dws(u as int)[k * n_prev(self.spec_n_inputs(), self.sizes(), u as int) + g],
    {
        proof {
            self.lemma_regions(u as int);
            lemma_row_major(k as int, g as int, self.sizes()[u as int] as int, n_prev(self.spec_n_inputs(), self.sizes(), u as int) as int);
        }
        let l = self.layers[u];
        let i = l.dw + k * l.n_previous + g;
        assert(self.dws(u as int)[k * l.n_previous + g] == self@[i as int]);
        self.buffer[i]
    }

    /// Bias gradient `k` of layer `u`.
    #[verifier::spinoff_prover]
    #[verifier::rlimit(60)]
    pub fn get_db(&self, u: usize, k: usize) -> (r: T)
        where
            T: Copy,
        requires
            self.wf(),
            u < self.sizes().len(),
            k < self.sizes()[u as int],
        ensures
            r == self.dbs(u as int)[k as int],
    {
        proof {
            self.lemma_regions(u as int);
        }
        let l = self.layers[u];
        assert(self.dbs(u as int)[k as int] == self@[l.db + k]);
        self.buffer[l.db + k]
    }

    /// Error signal `k` of layer `u`.
    #[verifier::spinoff_prover]
    #[verifier::rlimit(60)]
    pub fn get_da(&self, u: usize, k: usize) -> (r: T)
        where
            T: Copy,
        requires
            self.wf(),
            u < self.sizes().len(),
            k < self.sizes()[u as int],
        ensures
            r == self.das(u as int)[k as int],
    {
        proof {
            self.lemma_regions(u as int);
        }
        let l = self.layers[u];
        assert(self.das(u as int)[k as int] == self@[l.da + k]);
        self.buffer[l.da + k]
    }

    /// The derivative layout: the layers' regions add up to the buffer's length; layer `i`'s
    /// `dw` (an `n_i` by `n_{i-1}` matrix) is directly followed by its `n_i` entries of `db`, all
    /// inside the leading section of the parameter count; its `n_i` entries of `da` lie after that
    /// section; and for layers `i < j`, layer `i`'s regions end before layer `j`'s begin.
    pub proof fn lemma_layout(&self, i: int, j: int)
        requires
            self.wf(),
            0 <= i <= j < self.sizes().len(),
        ensures
            sum(deriv_regions(self.spec_n_inputs(), self.sizes())) == self@.len(),
            self.dws(i).len() == self.sizes()[i] * n_prev(self.spec_n_inputs(), self.sizes(), i),
            self.dbs(i).len() == self.sizes()[i],
            self.das(i).len() == self.sizes()[i],
            self.db_start(i) == self.dw_start(i) + self.dws(i).len(),
            self.db_start(j) + self.sizes()[j] <= self.spec_n_params() <= self.da_start(i),
            i < j ==> self.db_start(i) + self.sizes()[i] <= self.dw_start(j),
            i < j ==> self.da_start(i) + self.sizes()[i] <= self.da_start(j),
            self.da_start(j) + self.sizes()[j] <= self@.len(),
    {
        lemma_region_sums(self.spec_n_inputs(), self.sizes());
        self.lemma_regions(i);
        self.lemma_regions(j);
        if i < j {
            lemma_param_offset_mono(self.spec_n_inputs(), self.sizes(), i + 1, j);
            lemma_neuron_offset_mono(self.sizes(), i + 1, j);
        }
    }

    /// Read-only view of layer `index`, which must exist.
    pub fn layer_unchecked(&self, index: usize) -> (l: LayerRef<'_, T>)
        requires
            self.wf(),
            index < self.sizes().len(),
        ensures
            self.is_view(index as int, l.n, l.n_previous, l.dw@, l.db@, l.da@),
    {
        self.layer(index).unwrap()
    }

    /// Mutable view of layer `index`, or `None` when there is no such layer. The buffer stays
    /// well formed as long as the view's slices keep their lengths, as they do under indexing.
    #[verifier::rlimit(50)]
    pub fn layer_mut(&mut self, index: usize) -> (r: Option<LayerMut<'_, T>>)
        requires
            old(self).wf(),
        ensures
            final(self).spec_n_inputs() == old(self).spec_n_inputs(),
            final(self).sizes() == old(self).sizes(),
            r is None <==> index >= old(self).sizes().len(),
            r is None ==> final(self)@ == old(self)@ && final(self).wf(),
            r matches Some(l) ==> {
                &&& final(l.dw)@.len() == l.dw@.len() && final(l.db)@.len() == l.db@.len()
                    && final(l.da)@.len() == l.da@.len() ==> final(self).wf()
                &&& old(self).is_view(index as int, l.n, l.n_previous, l.dw@, l.db@, l.da@)
                &&& final(self)@ == old(self)@.subrange(0, old(self).dw_start(index as int) as int)
                    + final(l.dw)@ + final(l.db)@ + old(self)@.subrange(
                    old(self).db_start(index as int) + l.n,
                    old(self).da_start(index as int) as int,
                ) + final(l.da)@ + old(self)@.subrange(
                    old(self).da_start(index as int) + l.n,
                    old(self)@.len() as int,
                )
            },
    {
        if index >= self.layers.len() {
            return None;
        }
        proof {
            self.lemma_regions(index as int);
        }
        let l = self.layers[index];
        let ghost old_self = *self;
        let s = self.buffer.as_mut_slice();
        let (dw, db, da, empty) = carve_two(s, l.dw, l.db, l.db + l.n, l.da, l.da + l.n, l.da + l.n);
        assert(db@ =~= old_self.dbs(index as int));
        assert(da@ =~= old_self.das(index as int));
        assert(empty@ =~= Seq::<T>::empty());
        Some(LayerMut { n: l.n, n_previous: l.n_previous, dw, db, da })
    }

    /// Mutable views of two different layers at once, in the order of `indices`. Fails when an
    /// index is not a layer's, else when the two are the same layer. The buffer stays well
    /// formed as long as the views' slices keep their lengths.
    #[verifier::spinoff_prover]
    #[verifier::rlimit(100)]
    pub fn layer_disjoint_mut(&mut self, indices: [usize; 2]) -> (r: Result<[LayerMut<'_, T>; 2], DisjointError>)
        requires
            old(self).wf(),
        ensures
            final(self).spec_n_inputs() == old(self).spec_n_inputs(),
            final(self).sizes() == old(self).sizes(),
            r == Err::<[LayerMut<'_, T>; 2], _>(DisjointError::IndexOutOfBounds) <==> (indices[0]
                >= old(self).sizes().len() || indices[1] >= old(self).sizes().len()),
            r == Err::<[LayerMut<'_, T>; 2], _>(DisjointError::OverlappingIndices) <==> (indices[0]
                < old(self).sizes().len() && indices[1] < old(self).sizes().len() && indices[0]
                == indices[1]),
            r is Err ==> final(self)@ == old(self)@ && final(self).wf(),
            r matches Ok(ls) ==> {
                &&& old(self).is_view(indices[0] as int, ls[0].n, ls[0].n_previous, ls[0].dw@, ls[0].db@, ls[0].da@)
                &&& old(self).is_view(indices[1] as int, ls[1].n, ls[1].n_previous, ls[1].dw@, ls[1].db@, ls[1].da@)
                &&& indices[0] < indices[1] ==> final(self)@ == old(self).spliced(
                    indices[0] as int,
                    indices[1] as int,
                    final(ls[0].dw)@,
                    final(ls[0].db)@,
                    final(ls[1].dw)@,
                    final(ls[1].db)@,
                    final(ls[0].da)@,
                    final(ls[1].da)@,
                )
                &&& indices[1] < indices[0] ==> final(self)@ == old(self).spliced(
                    indices[1] as int,
                    indices[0] as int,
                    final(ls[1].dw)@,
                    final(ls[1].db)@,
                    final(ls[0].dw)@,
                    final(ls[0].db)@,
                    final(ls[1].da)@,
                    final(ls[0].da)@,
                )
                &&& final(ls[0].dw)@.len() == ls[0].dw@.len() && final(ls[0].db)@.len() == ls[0].db@.len()
                    && final(ls[0].da)@.len() == ls[0].da@.len()
                    && final(ls[1].dw)@.len() == ls[1].dw@.len() && final(ls[1].db)@.len() == ls[1].db@.len()
                    && final(ls[1].da)@.len() == ls[1].da@.len() ==> final(self).wf()
            },
    {
        let i = indices[0];
        let j = indices[1];
        let n_layers = self.layers.len();
        if i >= n_layers || j >= n_layers {
            return Err(DisjointError::IndexOutOfBounds);
        }
        if i == j {
            return Err(DisjointError::OverlappingIndices);
        }
        let (lo, hi) = if i < j {
            (i, j)
        } else {
            (j, i)
        };
        let (view_lo, view_hi) = self.split_two(lo, hi);
        if i < j {
            let r = [view_lo, view_hi];
            Ok(r)
        } else {
            let r = [view_hi, view_lo];
            Ok(r)
        }
    }

    /// Mutable views of layers `lo < hi`.
    #[verifier::spinoff_prover]
    #[verifier::rlimit(100)]
    fn split_two(&mut self, lo: usize, hi: usize) -> (r: (LayerMut<'_, T>, LayerMut<'_, T>))
        requires
            old(self).wf(),
            lo < hi < old(self).sizes().len(),
        ensures
            final(self).spec_n_inputs() == old(self).spec_n_inputs(),
            final(self).sizes() == old(self).sizes(),
            old(self).is_view(lo as int, r.0.n, r.0.n_previous, r.0.dw@, r.0.db@, r.0.da@),
            old(self).is_view(hi as int, r.1.n, r.1.n_previous, r.1.dw@, r.1.db@, r.1.da@),
            final(self)@ == old(self).spliced(
                lo as int,
                hi as int,
                final(r.0.dw)@,
                final(r.0.db)@,
                final(r.1.dw)@,
                final(r.1.db)@,
                final(r.0.da)@,
                final(r.1.da)@,
            ),
            final(r.0.dw)@.len() == r.0.dw@.len() && final(r.0.db)@.len() == r.0.db@.len()
                && final(r.0.da)@.len() == r.0.da@.len() && final(r.1.dw)@.len() == r.1.dw@.len()
                && final(r.1.db)@.len() == r.1.db@.len() && final(r.1.da)@.len() == r.1.da@.len()
                ==> final(self).wf(),
    {
        proof {
            self.lemma_regions(lo as int);
            self.lemma_regions(hi as int);
            lemma_param_offset_mono(self.spec_n_inputs(), self.sizes(), lo as int + 1, hi as int);
            lemma_neuron_offset_mono(self.sizes(), lo as int + 1, hi as int);
        }
        let l_lo = self.layers[lo];
        let l_hi = self.layers[hi];
        let s = self.buffer.as_mut_slice();
        let (dw_lo, db_lo, dw_hi, db_hi, da_lo, da_hi) = carve_six(
            s,
            (l_lo.dw, l_lo.db, l_lo.db + l_lo.n),
            (l_hi.dw, l_hi.db, l_hi.db + l_hi.n),
            (l_lo.da, l_lo.da + l_lo.n),
            (l_hi.da, l_hi.da + l_hi.n),
        );
        (
            LayerMut { n: l_lo.n, n_previous: l_lo.n_previous, dw: dw_lo, db: db_lo, da: da_lo },
            LayerMut { n: l_hi.n, n_previous: l_hi.n_previous, dw: dw_hi, db: db_hi, da: da_hi },
        )
    }
}

} // verus!
