//! Gradients by back-propagation, and the gradient-descent step.
use vstd::prelude::*;

use crate::deriv_buffer::DerivBuffer;
use crate::forward::{forward_acts, forward_input_of, forward_unchecked, forward_zs, holds_forward};
use crate::layout::{lemma_row_major, n_prev};
use crate::param_buffer::{self, ParamBuffer};
use crate::result_buffer::ResultBuffer;
use crate::scalar::{Activation, Arithmetic};
use crate::topology::{LayerDescription, Topology};

verus! {

/// The three buffers and the topology describe one network shape.
pub open spec fn same_shape<T, P>(
    topology: &Topology<P>,
    params: &ParamBuffer<T>,
    results: &ResultBuffer<T>,
    derivs: &DerivBuffer<T>,
) -> bool {
    &&& params.wf()
    &&& results.wf()
    &&& derivs.wf()
    &&& params.spec_n_inputs() == topology.spec_n_inputs()
    &&& params.sizes() == topology.sizes()
    &&& results.spec_n_inputs() == topology.spec_n_inputs()
    &&& results.sizes() == topology.sizes()
    &&& derivs.spec_n_inputs() == topology.spec_n_inputs()
    &&& derivs.sizes() == topology.sizes()
}

/// `sum_{k < len} (a[k] - y[k])^2`, added up from zero in increasing `k`.
pub open spec fn squared_error_sum<T, A: Arithmetic<T>>(ops: &A, a: Seq<T>, y: Seq<T>, len: int) -> T
    decreases len,
{
    if len <= 0 {
        ops.spec_zero()
    } else {
        let e = ops.spec_minus(a[len - 1], y[len - 1]);
        ops.spec_plus(squared_error_sum(ops, a, y, len - 1), ops.spec_times(e, e))
    }
}

/// The loss of one sample: the squared error of the network's output on `x` against `y`.
pub open spec fn sample_loss<T, A: Arithmetic<T>, P: Activation<T>>(
    ops: &A,
    params: &ParamBuffer<T>,
    phis: Seq<P>,
    x: Seq<T>,
    y: Seq<T>,
) -> T {
    squared_error_sum(
        ops,
        forward_acts(ops, params, phis, x, params.sizes().len() - 1),
        y,
        y.len() as int,
    )
}

/// The summed loss of the first `count` samples of a flat sample list whose samples have
/// `size` values, the first `n_inputs` of them inputs; added up from zero in order.
pub open spec fn batch_loss<T, A: Arithmetic<T>, P: Activation<T>>(
    ops: &A,
    params: &ParamBuffer<T>,
    phis: Seq<P>,
    samples: Seq<T>,
    n_inputs: int,
    size: int,
    count: int,
) -> T
    decreases count,
{
    if count <= 0 {
        ops.spec_zero()
    } else {
        let start = (count - 1) * size;
        ops.spec_plus(
            batch_loss(ops, params, phis, samples, n_inputs, size, count - 1),
            sample_loss(
                ops,
                params,
                phis,
                samples.subrange(start, start + n_inputs),
                samples.subrange(start + n_inputs, start + size),
            ),
        )
    }
}

/// The squared error `sum_k (a[k] - y[k])^2`, added up from zero in increasing `k`.
pub fn squared_error<T: Copy, A: Arithmetic<T>>(ops: &A, a: &[T], y: &[T]) -> (r: T)
    requires
        a@.len() == y@.len(),
    ensures
        r == squared_error_sum(ops, a@, y@, y@.len() as int),
{
    let mut sum = ops.zero();
    let mut k: usize = 0;
    while k < y.len()
        invariant
            k <= y@.len() == a@.len(),
            sum == squared_error_sum(ops, a@, y@, k as int),
        decreases y@.len() - k,
    {
        let e = ops.minus(a[k], y[k]);
        sum = ops.plus(sum, ops.times(e, e));
        k = k + 1;
    }
    sum
}

/// The error signal of neuron `k` of layer `u` for the sample `(x, y)`: `a_k - y_k` on the
/// output layer, else the sum over the next layer's neurons `m` of `d_m * W_{u+1}[m][k]`, with
/// `d_m` the next layer's error times `phi'(z_m)`.
pub open spec fn err_signal<T, A: Arithmetic<T>, P: Activation<T>>(
    ops: &A,
    params: &ParamBuffer<T>,
    phis: Seq<P>,
    x: Seq<T>,
    y: Seq<T>,
    u: int,
    k: int,
) -> T
    decreases params.sizes().len() - u, params.sizes()[u + 1] + 1,
{
    if u < 0 || u + 1 >= params.sizes().len() {
        let last = params.sizes().len() - 1;
        ops.spec_minus(forward_acts(ops, params, phis, x, last)[k], y[k])
    } else {
        err_sum(ops, params, phis, x, y, u, k, params.sizes()[u + 1] as int)
    }
}

/// The first `m` terms `d_j * W_{u+1}[j][g]` of the error signal of neuron `g` of layer `u`,
/// added up from zero in increasing `j`.
pub open spec fn err_sum<T, A: Arithmetic<T>, P: Activation<T>>(
    ops: &A,
    params: &ParamBuffer<T>,
    phis: Seq<P>,
    x: Seq<T>,
    y: Seq<T>,
    u: int,
    g: int,
    m: int,
) -> T
    decreases params.sizes().len() - u, m,
{
    if m <= 0 || u < 0 || u + 1 >= params.sizes().len() {
        ops.spec_zero()
    } else {
        let d = ops.spec_times(
            err_signal(ops, params, phis, x, y, u + 1, m - 1),
            phis[u + 1].spec_deriv(forward_zs(ops, params, phis, x, u + 1)[m - 1]),
        );
        ops.spec_plus(
            err_sum(ops, params, phis, x, y, u, g, m - 1),
            ops.spec_times(d, params.weights(u + 1)[(m - 1) * params.sizes()[u] + g]),
        )
    }
}

/// `d_k`: the error of neuron `k` of layer `u` times `phi'(z_k)`, for the sample `(x, y)`.
pub open spec fn delta<T, A: Arithmetic<T>, P: Activation<T>>(
    ops: &A,
    params: &ParamBuffer<T>,
    phis: Seq<P>,
    x: Seq<T>,
    y: Seq<T>,
    u: int,
    k: int,
) -> T {
    ops.spec_times(
        err_signal(ops, params, phis, x, y, u, k),
        phis[u].spec_deriv(forward_zs(ops, params, phis, x, u)[k]),
    )
}

/// The values layer `u` reads, as held: the input `x` for the first layer, else the activations
/// stored for the layer before.
pub open spec fn layer_input<T>(results: &ResultBuffer<T>, x: Seq<T>, u: int) -> Seq<T> {
    if u <= 0 {
        x
    } else {
        results.acts(u - 1)
    }
}

/// The error of neuron `k` of layer `u` as the buffers hold it: `a_k - y_k` on the output layer,
/// else the stored `da_u[k]`.
pub open spec fn layer_error<T, A: Arithmetic<T>>(
    ops: &A,
    results: &ResultBuffer<T>,
    derivs: &DerivBuffer<T>,
    y: Seq<T>,
    u: int,
    is_output_layer: bool,
    k: int,
) -> T {
    if is_output_layer {
        ops.spec_minus(results.acts(u)[k], y[k])
    } else {
        derivs.das(u)[k]
    }
}

/// `s_k`: the error of neuron `k` of layer `u` times `phi'(z_k)`, from the buffers' contents.
pub open spec fn layer_step<T, A: Arithmetic<T>, P: Activation<T>>(
    ops: &A,
    phi: &P,
    results: &ResultBuffer<T>,
    derivs: &DerivBuffer<T>,
    y: Seq<T>,
    u: int,
    is_output_layer: bool,
    k: int,
) -> T {
    ops.spec_times(
        layer_error(ops, results, derivs, y, u, is_output_layer, k),
        phi.spec_deriv(results.zs(u)[k]),
    )
}

/// `sum_{k < m} s_k * w[k * cols + g]`, added up from zero in increasing `k`: what back-
/// propagating through layer `u` leaves in `da_{u-1}[g]`.
pub open spec fn back_sum<T, A: Arithmetic<T>, P: Activation<T>>(
    ops: &A,
    phi: &P,
    results: &ResultBuffer<T>,
    derivs: &DerivBuffer<T>,
    y: Seq<T>,
    u: int,
    is_output_layer: bool,
    w: Seq<T>,
    cols: int,
    g: int,
    m: int,
) -> T
    decreases m,
{
    if m <= 0 {
        ops.spec_zero()
    } else {
        ops.spec_plus(
            back_sum(ops, phi, results, derivs, y, u, is_output_layer, w, cols, g, m - 1),
            ops.spec_times(
                layer_step(ops, phi, results, derivs, y, u, is_output_layer, m - 1),
                w[(m - 1) * cols + g],
            ),
        )
    }
}

/// Distinct row-major positions of a matrix with `cols` columns are distinct indices.
proof fn lemma_row_major_distinct(k1: int, g1: int, k2: int, g2: int, cols: int)
    requires
        0 <= g1 < cols,
        0 <= g2 < cols,
        k1 != k2 || g1 != g2,
    ensures
        k1 * cols + g1 != k2 * cols + g2,
{
    if k1 == k2 {
    } else if k1 < k2 {
        assert(k1 * cols + g1 < k2 * cols + g2) by (nonlinear_arith)
            requires
                k1 < k2,
                0 <= g1 < cols,
                0 <= g2,
        ;
    } else {
        assert(k2 * cols + g2 < k1 * cols + g1) by (nonlinear_arith)
            requires
                k2 < k1,
                0 <= g2 < cols,
                0 <= g1,
        ;
    }
}

/// Back-propagates through layer `u` for one sample, on whatever the buffers hold.
///
/// With `s_k` as [`layer_step`] (the error of neuron `k` times `phi'(z_k)`): adds `s_k` to
/// `db_u[k]` and `s_k * a_{u-1}[g]` to `dw_u[k][g]`, where `a_{-1}` is `x`; below the first layer,
/// zeroes `da_{u-1}` and sums `s_k * W_u[k][g]` into it over increasing `k` ([`back_sum`]).
#[verifier::spinoff_prover]
#[verifier::rlimit(100)]
fn back_propagate_layer<T: Copy, A: Arithmetic<T>, P: Activation<T>>(
    ops: &A,
    topology: &Topology<P>,
    params: &ParamBuffer<T>,
    phi: &P,
    u: usize,
    is_output_layer: bool,
    x: &[T],
    y: &[T],
    layer_params: &param_buffer::LayerRef<'_, T>,
    results: &ResultBuffer<T>,
    derivs: &mut DerivBuffer<T>,
)
    requires
        same_shape(topology, params, results, old(derivs)),
        u < topology.sizes().len(),
        layer_params.n == topology.sizes()[u as int],
        layer_params.n_previous == n_prev(topology.spec_n_inputs(), topology.sizes(), u as int),
        layer_params.w@.len() == layer_params.n * layer_params.n_previous,
        x@.len() == topology.spec_n_inputs(),
        is_output_layer ==> y@.len() == layer_params.n,
    ensures
        same_shape(topology, params, results, final(derivs)),
        forall|k: int, g: int|
            0 <= k < layer_params.n && 0 <= g < layer_params.n_previous
                ==> #[trigger] final(derivs).dws(u as int)[k * layer_params.n_previous + g]
                == ops.spec_plus(
                old(derivs).dws(u as int)[k * layer_params.n_previous + g],
                ops.spec_times(
                    layer_step(ops, phi, results, &*old(derivs), y@, u as int, is_output_layer, k),
                    layer_input(results, x@, u as int)[g],
                ),
            ),
        forall|k: int|
            0 <= k < layer_params.n ==> #[trigger] final(derivs).dbs(u as int)[k] == ops.spec_plus(
                old(derivs).dbs(u as int)[k],
                layer_step(ops, phi, results, &*old(derivs), y@, u as int, is_output_layer, k),
            ),
        u > 0 ==> forall|g: int|
            0 <= g < layer_params.n_previous ==> #[trigger] final(derivs).das(u - 1)[g] == back_sum(
                ops,
                phi,
                results,
                &*old(derivs),
                y@,
                u as int,
                is_output_layer,
                layer_params.w@,
                layer_params.n_previous as int,
                g,
                layer_params.n as int,
            ),
        forall|v: int|
            #![trigger final(derivs).dws(v)]
            #![trigger final(derivs).dbs(v)]
            0 <= v < topology.sizes().len() && v != u ==> final(derivs).dws(v)
                == old(derivs).dws(v) && final(derivs).dbs(v) == old(derivs).dbs(v),
        forall|v: int|
            0 <= v < topology.sizes().len() && v + 1 != u ==> #[trigger] final(derivs).das(v)
                == old(derivs).das(v),
{
    let ghost d0 = *derivs;
    let ghost ni = topology.spec_n_inputs();
    let ghost sizes = topology.sizes();
    let ghost phis = topology.phis();
    let ghost a_prev = layer_input(results, x@, u as int);
    let n = layer_params.n;
    let n_previous = layer_params.n_previous;
    let w_len = layer_params.w.len();
    proof {
        results.lemma_layout(u as int, u as int);
        derivs.lemma_layout(u as int, u as int);
        if u > 0 {
            results.lemma_layout((u - 1) as int, u as int);
        }
    }
    // `da` is per sample: zero the previous layer's before summing into it.
    if u > 0 {
        let mut g: usize = 0;
        while g < n_previous
            invariant
                0 < u < sizes.len(),
                g <= n_previous == sizes[u - 1],
                same_shape(topology, params, results, derivs),
                d0.spec_n_inputs() == ni,
                d0.sizes() == sizes,
                ni == topology.spec_n_inputs(),
                sizes == topology.sizes(),
                forall|j: int| 0 <= j < g ==> #[trigger] derivs.das(u - 1)[j] == ops.spec_zero(),
                forall|v: int|
                    #![trigger derivs.dws(v)]
                    #![trigger derivs.dbs(v)]
                    0 <= v < sizes.len() ==> derivs.dws(v) == d0.dws(v) && derivs.dbs(v) == d0.dbs(v),
                forall|v: int|
                    0 <= v < sizes.len() && v + 1 != u ==> #[trigger] derivs.das(v) == d0.das(v),
            decreases n_previous - g,
        {
            proof {
                derivs.lemma_layout((u - 1) as int, u as int);
            }
            derivs.set_da(u - 1, g, ops.zero());
            g = g + 1;
        }
    }
    let mut k: usize = 0;
    while k < n
        invariant
            u < sizes.len(),
            k <= n == sizes[u as int],
            n_previous == n_prev(ni, sizes, u as int),
            layer_params.w@.len() == n * n_previous == w_len,
            same_shape(topology, params, results, derivs),
            d0.spec_n_inputs() == ni,
            d0.sizes() == sizes,
            ni == topology.spec_n_inputs(),
            sizes == topology.sizes(),
            is_output_layer ==> y@.len() == n,
            a_prev == layer_input(results, x@, u as int),
            x@.len() == ni,
            a_prev.len() == n_previous,
            u > 0 ==> results.acts(u - 1) == a_prev,
            u == 0 ==> x@ == a_prev,
            derivs.dws(u as int).len() == n * n_previous,
            forall|j: int, h: int|
                0 <= j < k && 0 <= h < n_previous ==> #[trigger] derivs.dws(u as int)[j * n_previous + h]
                    == ops.spec_plus(
                    d0.dws(u as int)[j * n_previous + h],
                    ops.spec_times(layer_step(ops, phi, results, &d0, y@, u as int, is_output_layer, j), a_prev[h]),
                ),
            forall|j: int, h: int|
                k <= j < n && 0 <= h < n_previous ==> #[trigger] derivs.dws(u as int)[j * n_previous + h]
                    == d0.dws(u as int)[j * n_previous + h],
            forall|j: int|
                0 <= j < k ==> #[trigger] derivs.dbs(u as int)[j] == ops.spec_plus(
                    d0.dbs(u as int)[j],
                    layer_step(ops, phi, results, &d0, y@, u as int, is_output_layer, j),
                ),
            forall|j: int| k <= j < n ==> #[trigger] derivs.dbs(u as int)[j] == d0.dbs(u as int)[j],
            u > 0 ==> forall|h: int|
                0 <= h < n_previous ==> #[trigger] derivs.das(u - 1)[h] == back_sum(
                    ops,
                    phi,
                    results,
                    &d0,
                    y@,
                    u as int,
                    is_output_layer,
                    layer_params.w@,
                    n_previous as int,
                    h,
                    k as int,
                ),
            forall|v: int|
                #![trigger derivs.dws(v)]
                #![trigger derivs.dbs(v)]
                0 <= v < sizes.len() && v != u ==> derivs.dws(v) == d0.dws(v)
                    && derivs.dbs(v) == d0.dbs(v),
            forall|v: int|
                0 <= v < sizes.len() && v + 1 != u ==> #[trigger] derivs.das(v) == d0.das(v),
        decreases n - k,
    {
        proof {
            derivs.lemma_layout(u as int, u as int);
        }
        let phi_deriv_z = phi.deriv(results.get_z(u, k));
        let dak = if is_output_layer {
            ops.minus(results.get_a(u, k), y[k])
        } else {
            derivs.get_da(u, k)
        };
        proof {
            if !is_output_layer {
                assert(derivs.das(u as int) == d0.das(u as int));
            }
        }
        let delta_k = ops.times(dak, phi_deriv_z);
        assert(delta_k == layer_step(ops, phi, results, &d0, y@, u as int, is_output_layer, k as int));
        let db = ops.plus(derivs.get_db(u, k), delta_k);
        derivs.set_db(u, k, db);
        let mut g: usize = 0;
        while g < n_previous
            invariant
                u < sizes.len(),
                k < n == sizes[u as int],
                g <= n_previous == n_prev(ni, sizes, u as int),
                layer_params.w@.len() == n * n_previous == w_len,
                    same_shape(topology, params, results, derivs),
                d0.spec_n_inputs() == ni,
                d0.sizes() == sizes,
                ni == topology.spec_n_inputs(),
                sizes == topology.sizes(),
                    x@.len() == ni,
                a_prev.len() == n_previous,
                u > 0 ==> results.acts(u - 1) == a_prev,
                u == 0 ==> x@ == a_prev,
                derivs.dws(u as int).len() == n * n_previous,
                delta_k == layer_step(ops, phi, results, &d0, y@, u as int, is_output_layer, k as int),
                forall|j: int, h: int|
                    0 <= j < k && 0 <= h < n_previous ==> #[trigger] derivs.dws(u as int)[j * n_previous + h]
                        == ops.spec_plus(
                        d0.dws(u as int)[j * n_previous + h],
                        ops.spec_times(layer_step(ops, phi, results, &d0, y@, u as int, is_output_layer, j), a_prev[h]),
                    ),
                forall|h: int|
                    0 <= h < g ==> #[trigger] derivs.dws(u as int)[k * n_previous + h] == ops.spec_plus(
                        d0.dws(u as int)[k * n_previous + h],
                        ops.spec_times(delta_k, a_prev[h]),
                    ),
                forall|j: int, h: int|
                    (k < j < n && 0 <= h < n_previous) || (j == k && g <= h < n_previous)
                        ==> #[trigger] derivs.dws(u as int)[j * n_previous + h]
                        == d0.dws(u as int)[j * n_previous + h],
                forall|j: int|
                    0 <= j <= k ==> #[trigger] derivs.dbs(u as int)[j] == ops.spec_plus(
                        d0.dbs(u as int)[j],
                        layer_step(ops, phi, results, &d0, y@, u as int, is_output_layer, j),
                    ),
                forall|j: int| k < j < n ==> #[trigger] derivs.dbs(u as int)[j] == d0.dbs(u as int)[j],
                u > 0 ==> forall|h: int|
                    0 <= h < g ==> #[trigger] derivs.das(u - 1)[h] == back_sum(
                        ops,
                        phi,
                        results,
                        &d0,
                        y@,
                        u as int,
                        is_output_layer,
                        layer_params.w@,
                        n_previous as int,
                        h,
                        k + 1,
                    ),
                u > 0 ==> forall|h: int|
                    g <= h < n_previous ==> #[trigger] derivs.das(u - 1)[h] == back_sum(
                        ops,
                        phi,
                        results,
                        &d0,
                        y@,
                        u as int,
                        is_output_layer,
                        layer_params.w@,
                        n_previous as int,
                        h,
                        k as int,
                    ),
                forall|v: int|
                    #![trigger derivs.dws(v)]
                    #![trigger derivs.dbs(v)]
                    0 <= v < sizes.len() && v != u ==> derivs.dws(v) == d0.dws(v)
                        && derivs.dbs(v) == d0.dbs(v),
                forall|v: int|
                    0 <= v < sizes.len() && v + 1 != u ==> #[trigger] derivs.das(v) == d0.das(v),
            decreases n_previous - g,
        {
            proof {
                derivs.lemma_layout(u as int, u as int);
                if u > 0 {
                    derivs.lemma_layout((u - 1) as int, u as int);
                }
            }
            let a_prev_g = if u == 0 {
                x[g]
            } else {
                results.get_a(u - 1, g)
            };
            proof {
                lemma_row_major(k as int, g as int, n as int, n_previous as int);
            }
            let dw = ops.plus(derivs.get_dw(u, k, g), ops.times(delta_k, a_prev_g));
            let ghost before = *derivs;
            derivs.set_dw(u, k, g, dw);
            proof {
                assert forall|j: int, h: int|
                    0 <= j < n && 0 <= h < n_previous && (j != k || h != g) implies #[trigger] derivs.dws(
                    u as int,
                )[j * n_previous + h] == before.dws(u as int)[j * n_previous + h] by {
                    lemma_row_major_distinct(j, h, k as int, g as int, n_previous as int);
                    lemma_row_major(j, h, n as int, n_previous as int);
                }
            }
            if u > 0 {
                let w = layer_params.w[k * n_previous + g];
                let da = ops.plus(derivs.get_da(u - 1, g), ops.times(delta_k, w));
                derivs.set_da(u - 1, g, da);
            }
            g = g + 1;
        }
        k = k + 1;
    }
}

/// On buffers that hold the forward pass of `x`, and, below the output layer, the error signal
/// of layer `u` in its `da`, each [`layer_step`] is [`delta`] and the layer reads
/// [`forward_input_of`].
proof fn lemma_step_is_delta<T, A: Arithmetic<T>, P: Activation<T>>(
    ops: &A,
    params: &ParamBuffer<T>,
    phis: Seq<P>,
    x: Seq<T>,
    y: Seq<T>,
    phi: &P,
    results: &ResultBuffer<T>,
    derivs: &DerivBuffer<T>,
    u: int,
    is_output_layer: bool,
)
    requires
        0 <= u < params.sizes().len(),
        *phi == phis[u],
        is_output_layer <==> u + 1 == params.sizes().len(),
        holds_forward(ops, params, phis, x, results),
        !is_output_layer ==> forall|k: int|
            0 <= k < params.sizes()[u] ==> #[trigger] derivs.das(u)[k] == err_signal(
                ops,
                params,
                phis,
                x,
                y,
                u,
                k,
            ),
    ensures
        forall|k: int|
            0 <= k < params.sizes()[u] ==> #[trigger] layer_step(
                ops,
                phi,
                results,
                derivs,
                y,
                u,
                is_output_layer,
                k,
            ) == delta(ops, params, phis, x, y, u, k),
        layer_input(results, x, u) == forward_input_of(ops, params, phis, x, u),
{
    assert(results.zs(u) == forward_zs(ops, params, phis, x, u));
    if u > 0 {
        assert(results.zs(u - 1) == forward_zs(ops, params, phis, x, u - 1));
    }
}

/// What back-propagating through layer `u` sums into `da_{u-1}[g]` is, on such buffers, the
/// error signal of layer `u - 1` summed over the first `m` neurons of layer `u`.
proof fn lemma_back_sum_is_err_sum<T, A: Arithmetic<T>, P: Activation<T>>(
    ops: &A,
    params: &ParamBuffer<T>,
    phis: Seq<P>,
    x: Seq<T>,
    y: Seq<T>,
    phi: &P,
    results: &ResultBuffer<T>,
    derivs: &DerivBuffer<T>,
    u: int,
    is_output_layer: bool,
    g: int,
    m: int,
)
    requires
        0 < u < params.sizes().len(),
        0 <= m <= params.sizes()[u],
        forall|k: int|
            0 <= k < params.sizes()[u] ==> #[trigger] layer_step(
                ops,
                phi,
                results,
                derivs,
                y,
                u,
                is_output_layer,
                k,
            ) == delta(ops, params, phis, x, y, u, k),
    ensures
        back_sum(
            ops,
            phi,
            results,
            derivs,
            y,
            u,
            is_output_layer,
            params.weights(u),
            params.sizes()[u - 1] as int,
            g,
            m,
        ) == err_sum(ops, params, phis, x, y, u - 1, g, m),
    decreases m,
{
    if m > 0 {
        lemma_back_sum_is_err_sum(ops, params, phis, x, y, phi, results, derivs, u, is_output_layer, g, m - 1);
        assert(layer_step(ops, phi, results, derivs, y, u, is_output_layer, m - 1) == delta(
            ops,
            params,
            phis,
            x,
            y,
            u,
            m - 1,
        ));
    }
}

/// Runs the forward pass for input `x`, then back-propagates towards target `y`, adding this
/// sample's gradients to `derivs`. Returns the sample's loss, the sum over output neurons of
/// `(a_k - y_k)^2`.
#[verifier::spinoff_prover]
#[verifier::rlimit(100)]
fn back_propagate_sample<T: Copy, A: Arithmetic<T>, P: Activation<T>>(
    ops: &A,
    topology: &Topology<P>,
    params: &ParamBuffer<T>,
    results: &mut ResultBuffer<T>,
    derivs: &mut DerivBuffer<T>,
    x: &[T],
    y: &[T],
) -> (loss: T)
    requires
        same_shape(topology, params, old(results), old(derivs)),
        topology.sizes().len() > 0,
        x@.len() == topology.spec_n_inputs(),
        y@.len() == topology.sizes().last(),
    ensures
        same_shape(topology, params, final(results), final(derivs)),
        loss == sample_loss(ops, params, topology.phis(), x@, y@),
        holds_forward(ops, params, topology.phis(), x@, &*final(results)),
        forall|u: int, k: int, g: int|
            0 <= u < topology.sizes().len() && 0 <= k < topology.sizes()[u] && 0 <= g < n_prev(
                topology.spec_n_inputs(),
                topology.sizes(),
                u,
            ) ==> #[trigger] final(derivs).dws(u)[k * n_prev(
                topology.spec_n_inputs(),
                topology.sizes(),
                u,
            ) + g] == ops.spec_plus(
                old(derivs).dws(u)[k * n_prev(topology.spec_n_inputs(), topology.sizes(), u) + g],
                ops.spec_times(
                    delta(ops, params, topology.phis(), x@, y@, u, k),
                    forward_input_of(ops, params, topology.phis(), x@, u)[g],
                ),
            ),
        forall|u: int, k: int|
            0 <= u < topology.sizes().len() && 0 <= k < topology.sizes()[u]
                ==> #[trigger] final(derivs).dbs(u)[k] == ops.spec_plus(
                old(derivs).dbs(u)[k],
                delta(ops, params, topology.phis(), x@, y@, u, k),
            ),
        forall|u: int, g: int|
            0 <= u < topology.sizes().len() - 1 && 0 <= g < topology.sizes()[u]
                ==> #[trigger] final(derivs).das(u)[g] == err_signal(
                ops,
                params,
                topology.phis(),
                x@,
                y@,
                u,
                g,
            ),
{
    let ghost ni = topology.spec_n_inputs();
    let ghost sizes = topology.sizes();
    forward_unchecked(ops, x, topology, params, results);
    let descs = topology.layer_descriptions();
    assert(descs@.len() == sizes.len()) by {
        assert(descs@.map_values(|d: LayerDescription<P>| d.n_neurons as nat).len()
            == descs@.len());
    }
    let n_layers = params.n_layers();
    let last = results.layer(n_layers - 1).unwrap();
    proof {
        let u = n_layers - 1;
        assert(results.zs(u as int) == forward_zs(ops, params, topology.phis(), x@, u as int));
    }
    let loss = squared_error(ops, last.a, y);
    let ghost d0 = *derivs;
    let mut v: usize = n_layers;
    while v > 0
        invariant
            v <= n_layers == sizes.len() == descs@.len(),
            n_layers > 0,
            same_shape(topology, params, results, derivs),
            ni == topology.spec_n_inputs(),
            sizes == topology.sizes(),
            x@.len() == ni,
            y@.len() == sizes.last(),
            d0.spec_n_inputs() == ni,
            d0.sizes() == sizes,
            descs@.map_values(|d: LayerDescription<P>| d.phi) == topology.phis(),
            holds_forward(ops, params, topology.phis(), x@, results),
            forall|w: int, k: int|
                v - 1 <= w < n_layers - 1 && 0 <= w && 0 <= k < sizes[w] ==> #[trigger] derivs.das(
                    w,
                )[k] == err_signal(ops, params, topology.phis(), x@, y@, w, k),
            forall|u: int, k: int, g: int|
                v <= u < sizes.len() && 0 <= k < sizes[u] && 0 <= g < n_prev(ni, sizes, u)
                    ==> #[trigger] derivs.dws(u)[k * n_prev(ni, sizes, u) + g] == ops.spec_plus(
                    d0.dws(u)[k * n_prev(ni, sizes, u) + g],
                    ops.spec_times(
                        delta(ops, params, topology.phis(), x@, y@, u, k),
                        forward_input_of(ops, params, topology.phis(), x@, u)[g],
                    ),
                ),
            forall|u: int, k: int|
                v <= u < sizes.len() && 0 <= k < sizes[u] ==> #[trigger] derivs.dbs(u)[k]
                    == ops.spec_plus(d0.dbs(u)[k], delta(ops, params, topology.phis(), x@, y@, u, k)),
            forall|u: int|
                #![trigger derivs.dws(u)]
                #![trigger derivs.dbs(u)]
                0 <= u < v ==> derivs.dws(u) == d0.dws(u) && derivs.dbs(u) == d0.dbs(u),
        decreases v,
    {
        let u = v - 1;
        let is_output_layer = u + 1 == n_layers;
        let layer_params = params.layer(u).unwrap();
        assert(descs@[u as int].phi == topology.phis()[u as int]);
        let ghost before = *derivs;
        proof {
            lemma_step_is_delta(
                ops,
                params,
                topology.phis(),
                x@,
                y@,
                &descs[u as int].phi,
                results,
                &before,
                u as int,
                is_output_layer,
            );
        }
        back_propagate_layer(
            ops,
            topology,
            params,
            &descs[u].phi,
            u,
            is_output_layer,
            x,
            y,
            &layer_params,
            results,
            derivs,
        );
        proof {
            if u > 0 {
                assert forall|g: int| 0 <= g < sizes[u - 1] implies #[trigger] derivs.das(u - 1)[g]
                    == err_signal(ops, params, topology.phis(), x@, y@, u - 1, g) by {
                    lemma_back_sum_is_err_sum(
                        ops,
                        params,
                        topology.phis(),
                        x@,
                        y@,
                        &descs[u as int].phi,
                        results,
                        &before,
                        u as int,
                        is_output_layer,
                        g,
                        sizes[u as int] as int,
                    );
                }
            }
        }
        v = v - 1;
    }
    loss
}

/// Weight gradient `(k, g)` of layer `u` summed over the first `count` samples of a flat
/// sample list (samples of `size` values, the first `n_inputs` of them inputs), added up from
/// zero in order.
pub open spec fn dw_total<T, A: Arithmetic<T>, P: Activation<T>>(
    ops: &A,
    params: &ParamBuffer<T>,
    phis: Seq<P>,
    samples: Seq<T>,
    n_inputs: int,
    size: int,
    count: int,
    u: int,
    k: int,
    g: int,
) -> T
    decreases count,
{
    if count <= 0 {
        ops.spec_zero()
    } else {
        let start = (count - 1) * size;
        let x = samples.subrange(start, start + n_inputs);
        let y = samples.subrange(start + n_inputs, start + size);
        ops.spec_plus(
            dw_total(ops, params, phis, samples, n_inputs, size, count - 1, u, k, g),
            ops.spec_times(
                delta(ops, params, phis, x, y, u, k),
                forward_input_of(ops, params, phis, x, u)[g],
            ),
        )
    }
}

/// Bias gradient `k` of layer `u` summed over the first `count` samples, as [`dw_total`].
pub open spec fn db_total<T, A: Arithmetic<T>, P: Activation<T>>(
    ops: &A,
    params: &ParamBuffer<T>,
    phis: Seq<P>,
    samples: Seq<T>,
    n_inputs: int,
    size: int,
    count: int,
    u: int,
    k: int,
) -> T
    decreases count,
{
    if count <= 0 {
        ops.spec_zero()
    } else {
        let start = (count - 1) * size;
        let x = samples.subrange(start, start + n_inputs);
        let y = samples.subrange(start + n_inputs, start + size);
        ops.spec_plus(
            db_total(ops, params, phis, samples, n_inputs, size, count - 1, u, k),
            delta(ops, params, phis, x, y, u, k),
        )
    }
}

/// Sample `s` of a flat sample list with samples of `size` values lies inside the list.
pub proof fn lemma_sample_bounds(s: int, size: int, n_samples: int)
    requires
        0 <= s < n_samples,
        0 < size,
    ensures
        (s + 1) * size <= n_samples * size,
        s * size + size == (s + 1) * size,
        0 <= s * size,
{
    assert((s + 1) * size <= n_samples * size) by (nonlinear_arith)
        requires
            0 <= s < n_samples,
            0 < size,
    ;
    assert(s * size + size == (s + 1) * size) by (nonlinear_arith);
    assert(0 <= s * size) by (nonlinear_arith)
        requires
            0 <= s,
            0 < size,
    ;
}

/// Computes the averaged gradients of the loss over `samples` into `derivs`, and returns the
/// average loss.
///
/// `samples` is a flat list of samples, each `n_inputs` input values followed by `n_outputs`
/// target values. The `dw`/`db` accumulators are zeroed first, summed over the samples in
/// order, then divided by the number of samples, as is the summed loss.
#[verifier::spinoff_prover]
#[verifier::rlimit(100)]
pub fn calculate_derivs<T: Copy, A: Arithmetic<T>, P: Activation<T>>(
    ops: &A,
    topology: &Topology<P>,
    params: &ParamBuffer<T>,
    results: &mut ResultBuffer<T>,
    derivs: &mut DerivBuffer<T>,
    samples: &[T],
) -> (loss: T)
    requires
        same_shape(topology, params, old(results), old(derivs)),
        topology.sizes().len() > 0,
        samples@.len() > 0,
        0 < topology.spec_n_inputs() + topology.sizes().last(),
        samples@.len() as int % (topology.spec_n_inputs() + topology.sizes().last()) as int == 0,
    ensures
        same_shape(topology, params, final(results), final(derivs)),
        loss == ops.spec_divide_by_count(
            batch_loss(
                ops,
                params,
                topology.phis(),
                samples@,
                topology.spec_n_inputs() as int,
                (topology.spec_n_inputs() + topology.sizes().last()) as int,
                samples@.len() as int / (topology.spec_n_inputs() + topology.sizes().last()) as int,
            ),
            (samples@.len() as int / (topology.spec_n_inputs() + topology.sizes().last()) as int) as usize,
        ),
        ({
            let ni = topology.spec_n_inputs();
            let sizes = topology.sizes();
            let size = (ni + sizes.last()) as int;
            let count = samples@.len() as int / size;
            &&& forall|u: int, k: int, g: int|
                0 <= u < sizes.len() && 0 <= k < sizes[u] && 0 <= g < n_prev(ni, sizes, u)
                    ==> #[trigger] final(derivs).dws(u)[k * n_prev(ni, sizes, u) + g]
                    == ops.spec_divide_by_count(
                    dw_total(ops, params, topology.phis(), samples@, ni as int, size, count, u, k, g),
                    count as usize,
                )
            &&& forall|u: int, k: int|
                0 <= u < sizes.len() && 0 <= k < sizes[u] ==> #[trigger] final(derivs).dbs(u)[k]
                    == ops.spec_divide_by_count(
                    db_total(ops, params, topology.phis(), samples@, ni as int, size, count, u, k),
                    count as usize,
                )
        }),
{
    let ghost ni = topology.spec_n_inputs();
    let ghost sizes = topology.sizes();
    let n_params = derivs.n_params();
    let mut i: usize = 0;
    while i < n_params
        invariant
            i <= n_params == derivs.spec_n_params(),
            n_params <= derivs@.len(),
            same_shape(topology, params, results, derivs),
            forall|j: int| 0 <= j < i ==> #[trigger] derivs@[j] == ops.spec_zero(),
        decreases n_params - i,
    {
        derivs.set_param(i, ops.zero());
        i = i + 1;
    }
    proof {
        assert forall|u: int, k: int, g: int|
            0 <= u < sizes.len() && 0 <= k < sizes[u] && 0 <= g < n_prev(ni, sizes, u) implies #[trigger] derivs.dws(
            u,
        )[k * n_prev(ni, sizes, u) + g] == ops.spec_zero() by {
            derivs.lemma_layout(u, u);
            lemma_row_major(k, g, sizes[u] as int, n_prev(ni, sizes, u) as int);
        }
        assert forall|u: int, k: int| 0 <= u < sizes.len() && 0 <= k < sizes[u] implies #[trigger] derivs.dbs(
            u,
        )[k] == ops.spec_zero() by {
            derivs.lemma_layout(u, u);
        }
    }
    let len = samples.len();
    let n_inputs = topology.n_inputs();
    let n_outputs = topology.n_outputs();
    assert(n_inputs + n_outputs <= len) by (nonlinear_arith)
        requires
            0 < n_inputs + n_outputs,
            len > 0,
            len as int % (n_inputs + n_outputs) as int == 0,
    ;
    let sample_size = n_inputs + n_outputs;
    let n_samples = len / sample_size;
    assert(samples@.len() == n_samples * sample_size) by (nonlinear_arith)
        requires
            sample_size > 0,
            samples@.len() as int % sample_size as int == 0,
            n_samples == samples@.len() as int / sample_size as int,
    ;
    assert(n_samples > 0) by (nonlinear_arith)
        requires
            samples@.len() == n_samples * sample_size,
            samples@.len() > 0,
    ;
    let mut loss = ops.zero();
    let mut s: usize = 0;
    while s < n_samples
        invariant
            s <= n_samples,
            samples@.len() == n_samples * sample_size == len,
            sample_size == n_inputs + n_outputs,
            sample_size > 0,
            n_inputs == ni,
            n_outputs == sizes.last(),
            ni == topology.spec_n_inputs(),
            sizes == topology.sizes(),
            sizes.len() > 0,
            same_shape(topology, params, results, derivs),
            loss == batch_loss(ops, params, topology.phis(), samples@, ni as int, sample_size as int, s as int),
            forall|u: int, k: int, g: int|
                0 <= u < sizes.len() && 0 <= k < sizes[u] && 0 <= g < n_prev(ni, sizes, u)
                    ==> #[trigger] derivs.dws(u)[k * n_prev(ni, sizes, u) + g] == dw_total(
                    ops,
                    params,
                    topology.phis(),
                    samples@,
                    ni as int,
                    sample_size as int,
                    s as int,
                    u,
                    k,
                    g,
                ),
            forall|u: int, k: int|
                0 <= u < sizes.len() && 0 <= k < sizes[u] ==> #[trigger] derivs.dbs(u)[k] == db_total(
                    ops,
                    params,
                    topology.phis(),
                    samples@,
                    ni as int,
                    sample_size as int,
                    s as int,
                    u,
                    k,
                ),
        decreases n_samples - s,
    {
        proof {
            lemma_sample_bounds(s as int, sample_size as int, n_samples as int);
        }
        let start = s * sample_size;
        let x = &samples[start..start + n_inputs];
        let y = &samples[start + n_inputs..start + sample_size];
        let l_i = back_propagate_sample(ops, topology, params, results, derivs, x, y);
        loss = ops.plus(loss, l_i);
        s = s + 1;
    }
    let ghost summed = *derivs;
    proof {
        derivs.lemma_layout(0, 0);
    }
    i = 0;
    while i < n_params
        invariant
            i <= n_params == derivs.spec_n_params(),
            n_params <= derivs@.len(),
            n_samples > 0,
            same_shape(topology, params, results, derivs),
            summed@.len() == derivs@.len(),
            forall|j: int|
                0 <= j < i ==> #[trigger] derivs@[j] == ops.spec_divide_by_count(summed@[j], n_samples),
            forall|j: int| i <= j < derivs@.len() ==> #[trigger] derivs@[j] == summed@[j],
        decreases n_params - i,
    {
        let p = ops.divide_by_count(derivs.get_param(i), n_samples);
        derivs.set_param(i, p);
        i = i + 1;
    }
    proof {
        assert forall|u: int, k: int, g: int|
            0 <= u < sizes.len() && 0 <= k < sizes[u] && 0 <= g < n_prev(ni, sizes, u) implies #[trigger] derivs.dws(
            u,
        )[k * n_prev(ni, sizes, u) + g] == ops.spec_divide_by_count(
            summed.dws(u)[k * n_prev(ni, sizes, u) + g],
            n_samples,
        ) by {
            derivs.lemma_layout(u, u);
            lemma_row_major(k, g, sizes[u] as int, n_prev(ni, sizes, u) as int);
        }
        assert forall|u: int, k: int| 0 <= u < sizes.len() && 0 <= k < sizes[u] implies #[trigger] derivs.dbs(
            u,
        )[k] == ops.spec_divide_by_count(summed.dbs(u)[k], n_samples) by {
            derivs.lemma_layout(u, u);
        }
    }
    ops.divide_by_count(loss, n_samples)
}

/// `p - eta * dp` for every parameter `p`, with `dp` the entry at the same place of `derivs`.
pub open spec fn stepped<T, A: Arithmetic<T>>(ops: &A, params: Seq<T>, derivs: Seq<T>, eta: T) -> Seq<T> {
    Seq::new(params.len(), |j: int| ops.spec_minus(params[j], ops.spec_times(eta, derivs[j])))
}

/// The gradient-descent step: every parameter `p` becomes `p - eta * dp`, with `dp` the entry at
/// the same place of the `dw`/`db` section of `derivs`.
pub fn apply_derivs<T: Copy, A: Arithmetic<T>>(
    ops: &A,
    params: &mut ParamBuffer<T>,
    derivs: &DerivBuffer<T>,
    eta: T,
)
    requires
        old(params).wf(),
        derivs.wf(),
        old(params).spec_n_inputs() == derivs.spec_n_inputs(),
        old(params).sizes() == derivs.sizes(),
    ensures
        final(params).wf(),
        final(params).spec_n_inputs() == old(params).spec_n_inputs(),
        final(params).sizes() == old(params).sizes(),
        final(params)@ == stepped(ops, old(params)@, derivs@, eta),
{
    let ghost start_params = params@;
    let n = params.len();
    let mut i: usize = 0;
    while i < n
        invariant
            i <= n == params@.len() == derivs.spec_n_params(),
            params.wf(),
            derivs.wf(),
            params.spec_n_inputs() == derivs.spec_n_inputs(),
            params.sizes() == derivs.sizes(),
            start_params.len() == n,
            forall|j: int| 0 <= j < i ==> #[trigger] params@[j] == ops.spec_minus(start_params[j], ops.spec_times(eta, derivs@[j])),
            forall|j: int| i <= j < n ==> #[trigger] params@[j] == start_params[j],
        decreases n - i,
    {
        let p = params.as_slice()[i];
        let dp = derivs.get_param(i);
        params.set(i, ops.minus(p, ops.times(eta, dp)));
        i = i + 1;
    }
    assert(params@ =~= stepped(ops, start_params, derivs@, eta));
}

} // verus!
