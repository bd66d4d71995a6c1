//! The forward pass: `z_u = W_u a_{u-1} + b_u` and `a_u = phi_u(z_u)` for each layer in order.
use vstd::prelude::*;

use crate::layout::{lemma_row_major, n_prev};
use crate::param_buffer::ParamBuffer;
use crate::result_buffer::ResultBuffer;
use crate::scalar::{Activation, Arithmetic};
use crate::topology::Topology;

verus! {

/// `sum_{g < len} w[row + g] * a[g]`, added up from zero in increasing `g`.
pub open spec fn dot<T, A: Arithmetic<T>>(ops: &A, w: Seq<T>, row: int, a: Seq<T>, len: int) -> T
    decreases len,
{
    if len <= 0 {
        ops.spec_zero()
    } else {
        ops.spec_plus(
            dot(ops, w, row, a, len - 1),
            ops.spec_times(w[row + len - 1], a[len - 1]),
        )
    }
}

/// `z_u[k] = (W_u a_prev)[k] + b_u[k]`, for the previous activations `a_prev`.
pub open spec fn neuron_z<T, A: Arithmetic<T>>(
    ops: &A,
    params: &ParamBuffer<T>,
    u: int,
    a_prev: Seq<T>,
    k: int,
) -> T {
    let np = n_prev(params.spec_n_inputs(), params.sizes(), u);
    ops.spec_plus(dot(ops, params.weights(u), k * np, a_prev, np as int), params.biases(u)[k])
}

/// The activations of layer `u` on `input`: `a_u = phi_u(W_u a_{u-1} + b_u)`, with `a_{-1}` the
/// input.
pub open spec fn forward_acts<T, A: Arithmetic<T>, P: Activation<T>>(
    ops: &A,
    params: &ParamBuffer<T>,
    phis: Seq<P>,
    input: Seq<T>,
    u: int,
) -> Seq<T>
    decreases u,
{
    let a_prev = if u <= 0 {
        input
    } else {
        forward_acts(ops, params, phis, input, u - 1)
    };
    Seq::new(
        params.sizes()[u],
        |k: int| phis[u].spec_apply(neuron_z(ops, params, u, a_prev, k)),
    )
}

/// The values layer `u` reads on `input`: the input itself for the first layer, else the
/// activations of the layer before.
pub open spec fn forward_input_of<T, A: Arithmetic<T>, P: Activation<T>>(
    ops: &A,
    params: &ParamBuffer<T>,
    phis: Seq<P>,
    input: Seq<T>,
    u: int,
) -> Seq<T> {
    if u <= 0 {
        input
    } else {
        forward_acts(ops, params, phis, input, u - 1)
    }
}

/// The pre-activations of layer `u` on `input`.
pub open spec fn forward_zs<T, A: Arithmetic<T>, P: Activation<T>>(
    ops: &A,
    params: &ParamBuffer<T>,
    phis: Seq<P>,
    input: Seq<T>,
    u: int,
) -> Seq<T> {
    Seq::new(
        params.sizes()[u],
        |k: int| neuron_z(ops, params, u, forward_input_of(ops, params, phis, input, u), k),
    )
}

/// `results` holds the forward pass of `params` on `input`, for every layer.
pub open spec fn holds_forward<T, A: Arithmetic<T>, P: Activation<T>>(
    ops: &A,
    params: &ParamBuffer<T>,
    phis: Seq<P>,
    input: Seq<T>,
    results: &ResultBuffer<T>,
) -> bool {
    forall|u: int|
        0 <= u < params.sizes().len() ==> #[trigger] results.zs(u) == forward_zs(
            ops,
            params,
            phis,
            input,
            u,
        ) && results.acts(u) == forward_acts(ops, params, phis, input, u)
}

/// The forward pass has no hidden state: two result buffers that hold the forward pass of the
/// same parameters and input hold the same `z` and `a` at every layer.
pub proof fn lemma_forward_deterministic<T, A: Arithmetic<T>, P: Activation<T>>(
    ops: &A,
    params: &ParamBuffer<T>,
    phis: Seq<P>,
    input: Seq<T>,
    r1: &ResultBuffer<T>,
    r2: &ResultBuffer<T>,
)
    requires
        holds_forward(ops, params, phis, input, r1),
        holds_forward(ops, params, phis, input, r2),
    ensures
        forall|u: int| 0 <= u < params.sizes().len() ==> #[trigger] r1.zs(u) == r2.zs(u),
        forall|u: int| 0 <= u < params.sizes().len() ==> #[trigger] r1.acts(u) == r2.acts(u),
{
    assert forall|u: int| 0 <= u < params.sizes().len() implies #[trigger] r1.zs(u) == r2.zs(u)
        by {
        assert(r1.zs(u) == forward_zs(ops, params, phis, input, u));
        assert(r2.zs(u) == forward_zs(ops, params, phis, input, u));
    }
    assert forall|u: int| 0 <= u < params.sizes().len() implies #[trigger] r1.acts(u) == r2.acts(u)
        by {
        assert(r1.zs(u) == forward_zs(ops, params, phis, input, u));
        assert(r2.zs(u) == forward_zs(ops, params, phis, input, u));
    }
}

/// The forward pass depends on a parameter buffer only through its shape and its flat array:
/// a buffer reloaded with another's array, of the same shape, computes the same activations.
pub proof fn lemma_forward_same_params<T, A: Arithmetic<T>, P: Activation<T>>(
    ops: &A,
    p1: &ParamBuffer<T>,
    p2: &ParamBuffer<T>,
    phis: Seq<P>,
    input: Seq<T>,
    u: int,
)
    requires
        p1@ == p2@,
        p1.spec_n_inputs() == p2.spec_n_inputs(),
        p1.sizes() == p2.sizes(),
        0 <= u < p1.sizes().len(),
    ensures
        forward_acts(ops, p1, phis, input, u) == forward_acts(ops, p2, phis, input, u),
        forward_zs(ops, p1, phis, input, u) == forward_zs(ops, p2, phis, input, u),
    decreases u,
{
    if u > 0 {
        lemma_forward_same_params(ops, p1, p2, phis, input, u - 1);
    }
    let a_prev = forward_input_of(ops, p1, phis, input, u);
    assert(forward_input_of(ops, p2, phis, input, u) == a_prev);
    assert forall|k: int| 0 <= k < p1.sizes()[u] implies #[trigger] neuron_z(ops, p1, u, a_prev, k)
        == neuron_z(ops, p2, u, a_prev, k) by {
        assert(p1.weights(u) == p2.weights(u));
        assert(p1.biases(u) == p2.biases(u));
    }
    assert(forward_acts(ops, p1, phis, input, u) =~= forward_acts(ops, p2, phis, input, u));
    assert(forward_zs(ops, p1, phis, input, u) =~= forward_zs(ops, p2, phis, input, u));
}

/// Computes every layer's `z` and `a` for `input` into `results`.
///
/// Layer `u` reads the activations of layer `u - 1`, or `input` for the first layer, so the
/// layers are filled in increasing order. `z_u[k]` is the sum over `g` of `W_u[k][g]` times the
/// previous activation `g`, taken in increasing `g`, plus `b_u[k]`.
#[verifier::spinoff_prover]
#[verifier::rlimit(100)]
pub fn forward_unchecked<T: Copy, A: Arithmetic<T>, P: Activation<T>>(
    ops: &A,
    input: &[T],
    topology: &Topology<P>,
    params: &ParamBuffer<T>,
    results: &mut ResultBuffer<T>,
)
    requires
        params.wf(),
        old(results).wf(),
        params.spec_n_inputs() == topology.spec_n_inputs(),
        params.sizes() == topology.sizes(),
        old(results).spec_n_inputs() == topology.spec_n_inputs(),
        old(results).sizes() == topology.sizes(),
        input@.len() == topology.spec_n_inputs(),
    ensures
        final(results).wf(),
        final(results).spec_n_inputs() == old(results).spec_n_inputs(),
        final(results).sizes() == old(results).sizes(),
        holds_forward(ops, params, topology.phis(), input@, &*final(results)),
{
    let ghost ni = topology.spec_n_inputs();
    let ghost sizes = topology.sizes();
    let n_layers = params.n_layers();
    let descs = topology.layer_descriptions();
    assert(descs@.len() == sizes.len()) by {
        assert(descs@.map_values(|d: crate::topology::LayerDescription<P>| d.n_neurons as nat).len()
            == descs@.len());
    }
    let mut u: usize = 0;
    while u < n_layers
        invariant
            u <= n_layers == sizes.len() == descs@.len(),
            params.wf(),
            params.spec_n_inputs() == ni,
            params.sizes() == sizes,
            results.wf(),
            results.spec_n_inputs() == ni,
            results.sizes() == sizes,
            input@.len() == ni,
            descs@.map_values(|d: crate::topology::LayerDescription<P>| d.phi) == topology.phis(),
            forall|v: int|
                0 <= v < u ==> #[trigger] results.zs(v) == forward_zs(ops, params, topology.phis(), input@, v)
                    && results.acts(v) == forward_acts(ops, params, topology.phis(), input@, v),
        decreases n_layers - u,
    {
        let lp = params.layer(u).unwrap();
        let phi = &descs[u].phi;
        let ghost phis = topology.phis();
        let ghost a_prev = forward_input_of(ops, params, phis, input@, u as int);
        assert(*phi == phis[u as int]);
        proof {
            results.lemma_layout(u as int, u as int);
            if u > 0 {
                assert(results.zs(u - 1) == forward_zs(ops, params, phis, input@, u - 1));
            }
        }
        let n = lp.n;
        let n_previous = lp.n_previous;
        let w_len = lp.w.len();
        let mut k: usize = 0;
        while k < n
            invariant
                u < n_layers == sizes.len(),
                k <= n == sizes[u as int],
                n_previous == n_prev(ni, sizes, u as int),
                lp.w@.len() == n * n_previous == w_len,
                lp.b@.len() == n,
                results.wf(),
                results.spec_n_inputs() == ni,
                results.sizes() == sizes,
                input@.len() == ni,
                lp.w@ == params.weights(u as int),
                lp.b@ == params.biases(u as int),
                params.spec_n_inputs() == ni,
                params.sizes() == sizes,
                *phi == phis[u as int],
                phis == topology.phis(),
                a_prev == forward_input_of(ops, params, phis, input@, u as int),
                a_prev.len() == n_previous,
                u > 0 ==> results.acts(u - 1) == a_prev,
                u == 0 ==> input@ == a_prev,
                results.zs(u as int).len() == n,
                results.acts(u as int).len() == n,
                forall|v: int|
                    0 <= v < u ==> #[trigger] results.zs(v) == forward_zs(ops, params, phis, input@, v)
                        && results.acts(v) == forward_acts(ops, params, phis, input@, v),
                forall|j: int|
                    0 <= j < k ==> #[trigger] results.zs(u as int)[j] == neuron_z(
                        ops,
                        params,
                        u as int,
                        a_prev,
                        j,
                    ) && results.acts(u as int)[j] == phis[u as int].spec_apply(
                        neuron_z(ops, params, u as int, a_prev, j),
                    ),
            decreases n - k,
        {
            let mut acc = ops.zero();
            let mut g: usize = 0;
            while g < n_previous
                invariant
                    u < n_layers == sizes.len(),
                    k < n == sizes[u as int],
                    g <= n_previous == n_prev(ni, sizes, u as int),
                    lp.w@.len() == n * n_previous == w_len,
                    results.wf(),
                    results.spec_n_inputs() == ni,
                    results.sizes() == sizes,
                    input@.len() == ni,
                    a_prev.len() == n_previous,
                    u > 0 ==> results.acts(u - 1) == a_prev,
                    u == 0 ==> input@ == a_prev,
                    acc == dot(ops, lp.w@, k * n_previous, a_prev, g as int),
                decreases n_previous - g,
            {
                let x = if u == 0 {
                    input[g]
                } else {
                    results.get_a(u - 1, g)
                };
                proof {
                    lemma_row_major(k as int, g as int, n as int, n_previous as int);
                }
                acc = ops.plus(acc, ops.times(lp.w[k * n_previous + g], x));
                g = g + 1;
            }
            let z = ops.plus(acc, lp.b[k]);
            assert(z == neuron_z(ops, params, u as int, a_prev, k as int));
            results.set_z(u, k, z);
            let a = phi.apply(z);
            results.set_a(u, k, a);
            k = k + 1;
        }
        proof {
            assert(results.zs(u as int) =~= forward_zs(ops, params, phis, input@, u as int));
            let fa = forward_acts(ops, params, phis, input@, u as int);
            assert(fa == Seq::new(
                params.sizes()[u as int],
                |j: int| phis[u as int].spec_apply(neuron_z(ops, params, u as int, a_prev, j)),
            ));
            assert forall|j: int| 0 <= j < n implies results.acts(u as int)[j] == fa[j] by {
                assert(results.zs(u as int)[j] == neuron_z(ops, params, u as int, a_prev, j));
            }
            assert(results.acts(u as int) =~= fa);
            assert forall|v: int| 0 <= v < u + 1 implies #[trigger] results.zs(v) == forward_zs(
                ops,
                params,
                topology.phis(),
                input@,
                v,
            ) && results.acts(v) == forward_acts(ops, params, topology.phis(), input@, v) by {
                if v < u {
                    assert(results.zs(v) == forward_zs(ops, params, phis, input@, v));
                }
            }
        }
        u = u + 1;
    }
}

} // verus!
