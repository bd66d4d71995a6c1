use mlp::activation::{Identity, Sigmoid, Tanh};
use mlp::deriv_buffer::DerivBuffer;
use mlp::gym::partition_samples;
use mlp::param_buffer::{DisjointError, ParamBuffer};
use mlp::result_buffer::ResultBuffer;
use mlp::topology::{LayerDescription, Topology};

fn xor_shape() -> Topology<()> {
    Topology::new(2, vec![LayerDescription::new(2, ()), LayerDescription::new(1, ())])
}

#[test]
fn topology_reports_its_shape() {
    let t = xor_shape();
    assert_eq!(t.n_inputs(), 2);
    assert_eq!(t.n_layers(), 2);
    assert_eq!(t.n_outputs(), 1);
    assert_eq!(t.layer_descriptions()[0].n_neurons, 2);
    assert_eq!(t.n_params(), 9);
    assert!(t.fits());
}

#[test]
fn topology_without_layers_has_inputs_as_outputs() {
    let t: Topology<()> = Topology::new(3, vec![]);
    assert_eq!(t.n_outputs(), 3);
    assert_eq!(t.n_params(), 0);
    assert!(!t.fits());
}

#[test]
fn topology_too_large_does_not_fit() {
    let t = Topology::new(
        usize::MAX / 2,
        vec![LayerDescription::new(4, ()), LayerDescription::new(1, ())],
    );
    assert!(!t.fits());
}

#[test]
fn param_buffer_layout_of_xor_shape() {
    let t = xor_shape();
    let p = ParamBuffer::create(&t, 0.0f32);
    assert_eq!(p.n_layers(), 2);
    assert_eq!(p.len(), 9);
    assert_eq!(p.as_slice(), &[0.0f32; 9][..]);
    let l0 = p.layer(0).unwrap();
    assert_eq!((l0.n, l0.n_previous, l0.w.len(), l0.b.len()), (2, 2, 4, 2));
    let l1 = p.layer(1).unwrap();
    assert_eq!((l1.n, l1.n_previous, l1.w.len(), l1.b.len()), (1, 2, 2, 1));
    assert!(p.layer(2).is_none());
}

#[test]
fn param_buffer_regions_are_row_major_and_in_order() {
    let t = xor_shape();
    let mut p = ParamBuffer::create(&t, 0i64);
    // Layer 0: W at 0..4, b at 4..6; layer 1: W at 6..8, b at 8.
    p.set_weight(0, 1, 0, 10);
    p.set_bias(0, 1, 20);
    p.set_weight(1, 0, 1, 30);
    p.set_bias(1, 0, 40);
    assert_eq!(p.as_slice(), &[0, 0, 10, 0, 0, 20, 0, 30, 40][..]);
    assert_eq!(p.layer(0).unwrap().w, &[0, 0, 10, 0][..]);
    assert_eq!(p.layer(0).unwrap().b, &[0, 20][..]);
    assert_eq!(p.layer(1).unwrap().w, &[0, 30][..]);
    assert_eq!(p.layer(1).unwrap().b, &[40][..]);
    p.set(0, 7);
    assert_eq!(p.as_slice()[0], 7);
}

#[test]
fn result_buffer_layout_of_xor_shape() {
    let t = xor_shape();
    let mut r = ResultBuffer::create(&t, 0i64);
    assert_eq!(r.n_layers(), 2);
    r.set_z(0, 1, 1);
    r.set_a(0, 0, 2);
    r.set_z(1, 0, 3);
    r.set_a(1, 0, 4);
    let l0 = r.layer(0).unwrap();
    assert_eq!((l0.n, l0.n_previous), (2, 2));
    assert_eq!(l0.z, &[0, 1][..]);
    assert_eq!(l0.a, &[2, 0][..]);
    let l1 = r.layer(1).unwrap();
    assert_eq!((l1.n, l1.n_previous), (1, 2));
    assert_eq!(l1.z, &[3][..]);
    assert_eq!(l1.a, &[4][..]);
    assert_eq!(r.get_z(1, 0), 3);
    assert_eq!(r.get_a(0, 0), 2);
    assert!(r.layer(2).is_none());
}

#[test]
fn deriv_buffer_layout_of_xor_shape() {
    let t = xor_shape();
    let mut d = DerivBuffer::create(&t, 0i64);
    assert_eq!(d.n_layers(), 2);
    assert_eq!(d.n_params(), 9);
    d.set_dw(0, 1, 1, 1);
    d.set_db(0, 0, 2);
    d.set_dw(1, 0, 0, 3);
    d.set_db(1, 0, 4);
    d.set_da(0, 1, 5);
    d.set_da(1, 0, 6);
    // dw_0, db_0, dw_1, db_1, then da_0, da_1.
    assert_eq!(d.params(), &[0, 0, 0, 1, 2, 0, 3, 0, 4][..]);
    let l0 = d.layer(0).unwrap();
    assert_eq!(l0.dw, &[0, 0, 0, 1][..]);
    assert_eq!(l0.db, &[2, 0][..]);
    assert_eq!(l0.da, &[0, 5][..]);
    let l1 = d.layer(1).unwrap();
    assert_eq!(l1.dw, &[3, 0][..]);
    assert_eq!(l1.db, &[4][..]);
    assert_eq!(l1.da, &[6][..]);
    assert_eq!(d.get_dw(0, 1, 1), 1);
    assert_eq!(d.get_db(1, 0), 4);
    assert_eq!(d.get_da(0, 1), 5);
    assert_eq!(d.get_param(6), 3);
    d.set_param(8, 9);
    assert_eq!(d.get_db(1, 0), 9);
    assert!(d.layer(2).is_none());
}

#[test]
fn buffer_lengths_add_up_for_a_deeper_shape() {
    let t = Topology::new(
        3,
        vec![
            LayerDescription::new(4, ()),
            LayerDescription::new(5, ()),
            LayerDescription::new(2, ()),
        ],
    );
    // (4*3 + 4) + (5*4 + 5) + (2*5 + 2) = 16 + 25 + 12.
    let p = ParamBuffer::create(&t, 0u8);
    assert_eq!(p.len(), 53);
    let d = DerivBuffer::create(&t, 0u8);
    assert_eq!(d.n_params(), 53);
    assert_eq!(d.layer(2).unwrap().da.len(), 2);
    let r = ResultBuffer::create(&t, 0u8);
    assert_eq!(r.layer(2).unwrap().a.len(), 2);
    let l1 = p.layer(1).unwrap();
    assert_eq!((l1.n, l1.n_previous, l1.w.len()), (5, 4, 20));
}

#[test]
fn partition_gives_last_chunk_the_remainder() {
    assert_eq!(partition_samples(10, 3), vec![(0, 3), (3, 6), (6, 10)]);
    assert_eq!(partition_samples(7, 2), vec![(0, 3), (3, 7)]);
}

#[test]
fn partition_uses_at_most_one_chunk_per_sample() {
    assert_eq!(partition_samples(2, 5), vec![(0, 1), (1, 2)]);
    assert_eq!(partition_samples(4, 4), vec![(0, 1), (1, 2), (2, 3), (3, 4)]);
}

#[test]
fn partition_with_one_thread_is_the_whole_batch() {
    assert_eq!(partition_samples(5, 1), vec![(0, 5)]);
}

#[test]
fn activation_names() {
    assert_eq!(Identity.name(), "identity");
    assert_eq!(Sigmoid.name(), "sigmoid");
    assert_eq!(Tanh.name(), "tanh");
}

#[test]
fn param_layer_mut_writes_through_to_the_buffer() {
    let t = xor_shape();
    let mut p = ParamBuffer::create(&t, 0i32);
    {
        let l = p.layer_mut(1).unwrap();
        assert_eq!((l.n, l.n_previous, l.w.len(), l.b.len()), (1, 2, 2, 1));
        l.w[1] = 5;
        l.b[0] = 6;
    }
    assert_eq!(p.as_slice(), &[0, 0, 0, 0, 0, 0, 0, 5, 6][..]);
    assert!(p.layer_mut(2).is_none());
    assert_eq!(p.layer_unchecked(1).w, &[0, 5][..]);
}

#[test]
fn param_layer_disjoint_mut_follows_index_order() {
    let t = xor_shape();
    let mut p = ParamBuffer::create(&t, 0i32);
    {
        let [upper, lower] = p.layer_disjoint_mut([1, 0]).unwrap();
        assert_eq!((upper.n, lower.n), (1, 2));
        upper.b[0] = 1;
        lower.w[3] = 2;
        lower.b[1] = 3;
    }
    assert_eq!(p.as_slice(), &[0, 0, 0, 2, 0, 3, 0, 0, 1][..]);
}

#[test]
fn layer_disjoint_mut_rejects_bad_indices() {
    let t = xor_shape();
    let mut p = ParamBuffer::create(&t, 0i32);
    assert_eq!(p.layer_disjoint_mut([0, 2]).err(), Some(DisjointError::IndexOutOfBounds));
    assert_eq!(p.layer_disjoint_mut([1, 1]).err(), Some(DisjointError::OverlappingIndices));
    assert_eq!(p.layer_disjoint_mut([3, 3]).err(), Some(DisjointError::IndexOutOfBounds));
    let mut r = ResultBuffer::create(&t, 0i32);
    assert_eq!(r.layer_disjoint_mut([0, 0]).err(), Some(DisjointError::OverlappingIndices));
    let mut d = DerivBuffer::create(&t, 0i32);
    assert_eq!(d.layer_disjoint_mut([5, 0]).err(), Some(DisjointError::IndexOutOfBounds));
}

#[test]
fn result_layer_mut_and_disjoint_views() {
    let t = xor_shape();
    let mut r = ResultBuffer::create(&t, 0i32);
    {
        let l = r.layer_mut(0).unwrap();
        l.z[1] = 1;
        l.a[0] = 2;
    }
    {
        let [first, second] = r.layer_disjoint_mut([0, 1]).unwrap();
        second.z[0] = first.a[0] + 1;
        second.a[0] = first.z[1] + 3;
    }
    // z_0, a_0, z_1, a_1.
    assert_eq!(r.layer_unchecked(0).z, &[0, 1][..]);
    assert_eq!(r.layer_unchecked(0).a, &[2, 0][..]);
    assert_eq!(r.layer_unchecked(1).z, &[3][..]);
    assert_eq!(r.layer_unchecked(1).a, &[4][..]);
}

#[test]
fn deriv_layer_mut_and_disjoint_views() {
    let t = xor_shape();
    let mut d = DerivBuffer::create(&t, 0i32);
    {
        let l = d.layer_mut(1).unwrap();
        l.dw[0] = 1;
        l.db[0] = 2;
        l.da[0] = 3;
    }
    {
        let [prev, cur] = d.layer_disjoint_mut([0, 1]).unwrap();
        prev.da[1] = cur.da[0] * 10;
        prev.dw[2] = cur.dw[0] + 4;
        prev.db[0] = 7;
    }
    assert_eq!(d.params(), &[0, 0, 5, 0, 7, 0, 1, 0, 2][..]);
    assert_eq!(d.layer_unchecked(0).da, &[0, 30][..]);
    assert_eq!(d.layer_unchecked(1).da, &[3][..]);
    assert!(d.layer_mut(2).is_none());
}

#[test]
fn topology_clones_keep_the_shape() {
    let t = xor_shape();
    let copy = t.clone();
    assert_eq!(copy.n_params(), t.n_params());
    assert_eq!(copy.n_outputs(), 1);
    assert!(format!("{copy:?}").contains("n_inputs: 2"));
}
