//! Where each layer's regions sit in the flat buffers, as functions of the network shape.
//!
//! A shape is the input count `n_inputs` and the neuron count of each layer, `sizes`.
//! Layers are numbered from 0; layer `i` reads the outputs of layer `i - 1`, or the
//! network inputs when `i == 0`.
use vstd::prelude::*;

verus! {

/// Number of values that layer `i` takes in.
pub open spec fn n_prev(n_inputs: nat, sizes: Seq<nat>, i: int) -> nat {
    if i <= 0 {
        n_inputs
    } else {
        sizes[i - 1]
    }
}

/// Length of the weight matrix of layer `i`: `sizes[i]` rows of `n_prev` columns.
pub open spec fn weight_len(n_inputs: nat, sizes: Seq<nat>, i: int) -> nat {
    sizes[i] * n_prev(n_inputs, sizes, i)
}

/// Start of layer `i`'s weights in a parameter buffer: the regions of all earlier layers.
pub open spec fn param_offset(n_inputs: nat, sizes: Seq<nat>, i: int) -> nat
    decreases i,
{
    if i <= 0 {
        0
    } else {
        param_offset(n_inputs, sizes, i - 1) + weight_len(n_inputs, sizes, i - 1) + sizes[i - 1]
    }
}

/// Number of parameters (weights and biases) of the whole network.
pub open spec fn param_count(n_inputs: nat, sizes: Seq<nat>) -> nat {
    param_offset(n_inputs, sizes, sizes.len() as int)
}

/// Number of neurons in the layers before layer `i`.
pub open spec fn neuron_offset(sizes: Seq<nat>, i: int) -> nat
    decreases i,
{
    if i <= 0 {
        0
    } else {
        neuron_offset(sizes, i - 1) + sizes[i - 1]
    }
}

/// Number of neurons of the whole network.
pub open spec fn neuron_count(sizes: Seq<nat>) -> nat {
    neuron_offset(sizes, sizes.len() as int)
}

/// Length of a result buffer: a `z` and an `a` vector per layer.
pub open spec fn result_count(sizes: Seq<nat>) -> nat {
    2 * neuron_count(sizes)
}

/// Length of a derivative buffer: `dw` and `db` for every layer, laid out as the parameters,
/// followed by one `da` vector per layer.
pub open spec fn deriv_count(n_inputs: nat, sizes: Seq<nat>) -> nat {
    param_count(n_inputs, sizes) + neuron_count(sizes)
}

/// Parameter offsets grow with the layer index.
pub proof fn lemma_param_offset_mono(n_inputs: nat, sizes: Seq<nat>, i: int, j: int)
    requires
        0 <= i <= j <= sizes.len(),
    ensures
        param_offset(n_inputs, sizes, i) <= param_offset(n_inputs, sizes, j),
    decreases j - i,
{
    if i < j {
        lemma_param_offset_mono(n_inputs, sizes, i, j - 1);
    }
}

/// Neuron offsets grow with the layer index.
pub proof fn lemma_neuron_offset_mono(sizes: Seq<nat>, i: int, j: int)
    requires
        0 <= i <= j <= sizes.len(),
    ensures
        neuron_offset(sizes, i) <= neuron_offset(sizes, j),
    decreases j - i,
{
    if i < j {
        lemma_neuron_offset_mono(sizes, i, j - 1);
    }
}

/// Each layer has at least as many parameters as neurons (one bias each).
pub proof fn lemma_neurons_le_params(n_inputs: nat, sizes: Seq<nat>, i: int)
    requires
        0 <= i <= sizes.len(),
    ensures
        neuron_offset(sizes, i) <= param_offset(n_inputs, sizes, i),
    decreases i,
{
    if i > 0 {
        lemma_neurons_le_params(n_inputs, sizes, i - 1);
    }
}

/// The result buffer is never longer than the derivative buffer, nor the parameter buffer.
pub proof fn lemma_counts_bounded(n_inputs: nat, sizes: Seq<nat>)
    ensures
        result_count(sizes) <= deriv_count(n_inputs, sizes),
        param_count(n_inputs, sizes) <= deriv_count(n_inputs, sizes),
{
    lemma_neurons_le_params(n_inputs, sizes, sizes.len() as int);
}

/// Layers before `i` with a parameter have a neuron.
pub proof fn lemma_neurons_nonempty(n_inputs: nat, sizes: Seq<nat>, i: int)
    requires
        0 <= i <= sizes.len(),
        0 < param_offset(n_inputs, sizes, i),
    ensures
        0 < neuron_offset(sizes, i),
    decreases i,
{
    if param_offset(n_inputs, sizes, i - 1) > 0 {
        lemma_neurons_nonempty(n_inputs, sizes, i - 1);
    } else if sizes[i - 1] == 0 {
        assert(sizes[i - 1] * n_prev(n_inputs, sizes, i - 1) == 0) by (nonlinear_arith)
            requires
                sizes[i - 1] == 0,
        ;
    }
}

/// A shape with a parameter has a non-empty result buffer.
pub proof fn lemma_results_nonempty(n_inputs: nat, sizes: Seq<nat>)
    requires
        0 < param_count(n_inputs, sizes),
    ensures
        0 < result_count(sizes),
{
    lemma_neurons_nonempty(n_inputs, sizes, sizes.len() as int);
}

/// Every parameter index lies in the region of some layer.
pub proof fn lemma_find_layer(n_inputs: nat, sizes: Seq<nat>, j: int, upto: int) -> (u: int)
    requires
        0 <= upto <= sizes.len(),
        0 <= j < param_offset(n_inputs, sizes, upto),
    ensures
        0 <= u < upto,
        param_offset(n_inputs, sizes, u) <= j < param_offset(n_inputs, sizes, u + 1),
    decreases upto,
{
    if j >= param_offset(n_inputs, sizes, upto - 1) {
        upto - 1
    } else {
        lemma_find_layer(n_inputs, sizes, j, upto - 1)
    }
}

/// A row-major index `k * cols + g` stays inside a `rows` by `cols` matrix.
pub proof fn lemma_row_major(k: int, g: int, rows: int, cols: int)
    requires
        0 <= k < rows,
        0 <= g < cols,
    ensures
        0 <= k * cols + g < rows * cols,
{
    assert(0 <= k * cols + g < rows * cols) by (nonlinear_arith)
        requires
            0 <= k < rows,
            0 <= g < cols,
    ;
}

/// A layer's parameter region ends where the next one starts, within the whole buffer.
pub proof fn lemma_param_region(n_inputs: nat, sizes: Seq<nat>, i: int)
    requires
        0 <= i < sizes.len(),
    ensures
        param_offset(n_inputs, sizes, i) + weight_len(n_inputs, sizes, i) + sizes[i]
            == param_offset(n_inputs, sizes, i + 1),
        param_offset(n_inputs, sizes, i + 1) <= param_count(n_inputs, sizes),
{
    lemma_param_offset_mono(n_inputs, sizes, i + 1, sizes.len() as int);
}

/// A layer's neurons end where the next layer's start, within the whole network.
pub proof fn lemma_neuron_region(sizes: Seq<nat>, i: int)
    requires
        0 <= i < sizes.len(),
    ensures
        neuron_offset(sizes, i) + sizes[i] == neuron_offset(sizes, i + 1),
        neuron_offset(sizes, i + 1) <= neuron_count(sizes),
{
    lemma_neuron_offset_mono(sizes, i + 1, sizes.len() as int);
}

/// Sum of a sequence of sizes.
pub open spec fn sum(s: Seq<nat>) -> nat
    decreases s.len(),
{
    if s.len() == 0 {
        0
    } else {
        sum(s.drop_last()) + s.last()
    }
}

/// Size of each layer's region in a parameter buffer: its weights and its biases.
pub open spec fn param_regions(n_inputs: nat, sizes: Seq<nat>) -> Seq<nat> {
    Seq::new(sizes.len(), |i: int| weight_len(n_inputs, sizes, i) + sizes[i])
}

/// Size of each layer's region in a result buffer: its `z` and its `a`.
pub open spec fn result_regions(sizes: Seq<nat>) -> Seq<nat> {
    Seq::new(sizes.len(), |i: int| 2 * sizes[i])
}

/// Size of each layer's regions in a derivative buffer: its `dw`, its `db` and its `da`.
pub open spec fn deriv_regions(n_inputs: nat, sizes: Seq<nat>) -> Seq<nat> {
    Seq::new(sizes.len(), |i: int| weight_len(n_inputs, sizes, i) + 2 * sizes[i])
}

proof fn lemma_sum_prefixes(n_inputs: nat, sizes: Seq<nat>, i: int)
    requires
        0 <= i <= sizes.len(),
    ensures
        sum(param_regions(n_inputs, sizes).subrange(0, i)) == param_offset(n_inputs, sizes, i),
        sum(result_regions(sizes).subrange(0, i)) == 2 * neuron_offset(sizes, i),
        sum(deriv_regions(n_inputs, sizes).subrange(0, i)) == param_offset(n_inputs, sizes, i)
            + neuron_offset(sizes, i),
    decreases i,
{
    if i > 0 {
        lemma_sum_prefixes(n_inputs, sizes, i - 1);
        assert(param_regions(n_inputs, sizes).subrange(0, i).drop_last()
            =~= param_regions(n_inputs, sizes).subrange(0, i - 1));
        assert(result_regions(sizes).subrange(0, i).drop_last()
            =~= result_regions(sizes).subrange(0, i - 1));
        assert(deriv_regions(n_inputs, sizes).subrange(0, i).drop_last()
            =~= deriv_regions(n_inputs, sizes).subrange(0, i - 1));
    }
}

/// The layer regions of each buffer kind add up to that buffer's length.
pub proof fn lemma_region_sums(n_inputs: nat, sizes: Seq<nat>)
    ensures
        sum(param_regions(n_inputs, sizes)) == param_count(n_inputs, sizes),
        sum(result_regions(sizes)) == result_count(sizes),
        sum(deriv_regions(n_inputs, sizes)) == deriv_count(n_inputs, sizes),
{
    lemma_sum_prefixes(n_inputs, sizes, sizes.len() as int);
    assert(param_regions(n_inputs, sizes).subrange(0, sizes.len() as int) =~= param_regions(
        n_inputs,
        sizes,
    ));
    assert(result_regions(sizes).subrange(0, sizes.len() as int) =~= result_regions(sizes));
    assert(deriv_regions(n_inputs, sizes).subrange(0, sizes.len() as int) =~= deriv_regions(
        n_inputs,
        sizes,
    ));
}

/// Splits `[a, b)` off `s`: returns that part and the part after `b`; the part before `a`
/// stays as it is.
pub fn carve<'a, T>(s: &'a mut [T], a: usize, b: usize) -> (r: (&'a mut [T], &'a mut [T]))
    requires
        a <= b <= old(s)@.len(),
    ensures
        r.0@ == old(s)@.subrange(a as int, b as int),
        r.1@ == old(s)@.subrange(b as int, old(s)@.len() as int),
        final(s)@ == old(s)@.subrange(0, a as int) + final(r.0)@ + final(r.1)@,
{
    let (before, rest) = s.split_at_mut(a);
    let (part, after) = rest.split_at_mut(b - a);
    (part, after)
}

/// Splits two pairs of adjacent ranges, `[a0, a1)`, `[a1, a2)` and `[b0, b1)`, `[b1, b2)`, off
/// `s`; the rest of `s` stays as it is.
#[verifier::spinoff_prover]
#[verifier::rlimit(60)]
pub fn carve_two<'a, T>(
    s: &'a mut [T],
    a0: usize,
    a1: usize,
    a2: usize,
    b0: usize,
    b1: usize,
    b2: usize,
) -> (r: (&'a mut [T], &'a mut [T], &'a mut [T], &'a mut [T]))
    requires
        a0 <= a1 <= a2 <= b0 <= b1 <= b2 <= old(s)@.len(),
    ensures
        r.0@ == old(s)@.subrange(a0 as int, a1 as int),
        r.1@ == old(s)@.subrange(a1 as int, a2 as int),
        r.2@ == old(s)@.subrange(b0 as int, b1 as int),
        r.3@ == old(s)@.subrange(b1 as int, b2 as int),
        final(s)@ == old(s)@.subrange(0, a0 as int) + final(r.0)@ + final(r.1)@ + old(s)@.subrange(
            a2 as int,
            b0 as int,
        ) + final(r.2)@ + final(r.3)@ + old(s)@.subrange(b2 as int, old(s)@.len() as int),
{
    let ghost s0 = s@;
    let (lo_first, rest) = carve(s, a0, a1);
    let (lo_second, rest) = carve(rest, 0, a2 - a1);
    let ghost mid = rest@.subrange(0, b0 - a2);
    assert(mid =~= s0.subrange(a2 as int, b0 as int));
    let (hi_first, rest) = carve(rest, b0 - a2, b1 - a2);
    let (hi_second, after) = carve(rest, 0, b2 - b1);
    assert(after@ =~= s0.subrange(b2 as int, s0.len() as int));
    (lo_first, lo_second, hi_first, hi_second)
}

/// Splits six ranges off `s`: two pairs of adjacent ranges, `[a0, a1)`, `[a1, a2)` and
/// `[b0, b1)`, `[b1, b2)`, then `[c0, c1)` and `[d0, d1)`; the rest of `s` stays as it is.
#[verifier::spinoff_prover]
#[verifier::rlimit(60)]
pub fn carve_six<'a, T>(s: &'a mut [T], a: (usize, usize, usize), b: (usize, usize, usize), c: (usize, usize), d: (usize, usize)) -> (r: (
    &'a mut [T],
    &'a mut [T],
    &'a mut [T],
    &'a mut [T],
    &'a mut [T],
    &'a mut [T],
))
    requires
        a.0 <= a.1 <= a.2 <= b.0 <= b.1 <= b.2 <= c.0 <= c.1 <= d.0 <= d.1 <= old(s)@.len(),
    ensures
        r.0@ == old(s)@.subrange(a.0 as int, a.1 as int),
        r.1@ == old(s)@.subrange(a.1 as int, a.2 as int),
        r.2@ == old(s)@.subrange(b.0 as int, b.1 as int),
        r.3@ == old(s)@.subrange(b.1 as int, b.2 as int),
        r.4@ == old(s)@.subrange(c.0 as int, c.1 as int),
        r.5@ == old(s)@.subrange(d.0 as int, d.1 as int),
        final(s)@ == old(s)@.subrange(0, a.0 as int) + final(r.0)@ + final(r.1)@ + old(s)@.subrange(
            a.2 as int,
            b.0 as int,
        ) + final(r.2)@ + final(r.3)@ + old(s)@.subrange(b.2 as int, c.0 as int) + final(r.4)@
            + old(s)@.subrange(c.1 as int, d.0 as int) + final(r.5)@ + old(s)@.subrange(
            d.1 as int,
            old(s)@.len() as int,
        ),
{
    let ghost s0 = s@;
    let (lo_first, rest) = carve(s, a.0, a.1);
    let (lo_second, rest) = carve(rest, 0, a.2 - a.1);
    assert(rest@.subrange(0, b.0 - a.2) =~= s0.subrange(a.2 as int, b.0 as int));
    let (hi_first, rest) = carve(rest, b.0 - a.2, b.1 - a.2);
    let (hi_second, rest) = carve(rest, 0, b.2 - b.1);
    assert(rest@.subrange(0, c.0 - b.2) =~= s0.subrange(b.2 as int, c.0 as int));
    let (c_part, rest) = carve(rest, c.0 - b.2, c.1 - b.2);
    assert(rest@.subrange(0, d.0 - c.1) =~= s0.subrange(c.1 as int, d.0 as int));
    let (d_part, after) = carve(rest, d.0 - c.1, d.1 - c.1);
    assert(after@ =~= s0.subrange(d.1 as int, s0.len() as int));
    (lo_first, lo_second, hi_first, hi_second, c_part, d_part)
}

} // verus!
