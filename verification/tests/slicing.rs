//! Scope-aware slicing: a coordinate consumes exactly the scope's index
//! axes and hands back the remaining sub-array, and rendering hands
//! each element renderer that sliced view.

use transformer_scope::element::ElementData;
use transformer_scope::navigation::{navigation_links, NavTarget, NavigationLinks};
use transformer_scope::neuron_template::NeuronTemplate;
use transformer_scope::payload_builder::PayloadBuilder;
use transformer_scope::value::{Scope, Value, ValueArray};

fn u32_value(values: &[u32], shape: &[usize], scope: Scope) -> Value {
    Value::new(ValueArray::U32(values.to_vec()), shape.to_vec(), scope).unwrap()
}

#[test]
fn value_new_checks_element_count() {
    assert!(Value::new(ValueArray::U32(vec![1, 2, 3]), vec![2, 2], Scope::Global).is_none());
    assert!(Value::new(ValueArray::U32(vec![1, 2, 3, 4]), vec![2, 2], Scope::Global).is_some());
    assert!(Value::new(ValueArray::U32(vec![]), vec![2, 0, 3], Scope::Global).is_some());
}

#[test]
fn neuron_slice_takes_the_trailing_block() {
    // Shape (2, 3, 2, 2): the block of (layer 1, neuron 2) starts at
    // ((1 * 3) + 2) * 4 = 20.
    let data: Vec<u32> = (0..24).collect();
    let v = u32_value(&data, &[2, 3, 2, 2], Scope::Neuron);
    let slice = v.slice_at(1, 2);
    assert_eq!(slice.scope(), Scope::Global);
    assert_eq!(slice.shape().as_slice(), &[2, 2]);
    assert_eq!(slice.as_u32().unwrap().as_slice(), &[20, 21, 22, 23]);
}

#[test]
fn layer_slice_consumes_one_axis() {
    let data: Vec<u32> = (0..6).collect();
    let v = u32_value(&data, &[3, 2], Scope::Layer);
    let slice = v.slice_at(2, 0);
    assert_eq!(slice.shape().as_slice(), &[2]);
    assert_eq!(slice.as_u32().unwrap().as_slice(), &[4, 5]);
}

#[test]
fn global_slice_is_the_whole_array() {
    let data: Vec<u32> = (0..4).collect();
    let v = u32_value(&data, &[2, 2], Scope::Global);
    let slice = v.slice_at(1, 1);
    assert_eq!(slice.shape().as_slice(), &[2, 2]);
    assert_eq!(slice.as_u32().unwrap().as_slice(), &[0, 1, 2, 3]);
}

#[test]
fn scalar_neuron_slice_has_no_axes() {
    let data: Vec<u32> = vec![10, 11, 12, 13, 14, 15];
    let v = u32_value(&data, &[2, 3], Scope::Neuron);
    let slice = v.slice_at(1, 0);
    assert!(slice.shape().is_empty());
    assert_eq!(slice.as_u32().unwrap().as_slice(), &[13]);
}

#[test]
fn render_slices_every_element_at_the_coordinate() {
    let mut builder = PayloadBuilder::new(2, 2);
    builder.mlp_neuron_template(
        NeuronTemplate::parse("head$heatmap(board)mid$value(score)tail").unwrap(),
    );
    let board_bits: Vec<f32> = (0..2 * 2 * 2 * 2).map(|i| i as f32).collect();
    let board = Value::new(
        ValueArray::F32(board_bits.iter().map(|v| v.to_bits()).collect()),
        vec![2, 2, 2, 2],
        Scope::Neuron,
    )
    .unwrap();
    builder.add_value("board".to_string(), board).unwrap();
    let score = u32_value(&[7, 8, 9, 10], &[2, 2], Scope::Neuron);
    builder.add_value("score".to_string(), score).unwrap();
    let payload = builder.build().unwrap();

    let rendering = payload.render_neuron(1, 0);
    assert_eq!(rendering.prefix, "head");
    assert_eq!(rendering.parts.len(), 2);

    match &rendering.parts[0] {
        (ElementData::Heatmap(slice), suffix) => {
            assert_eq!(suffix, "mid");
            assert_eq!(slice.shape().as_slice(), &[2, 2]);
            let expected: Vec<u32> = [8.0f32, 9.0, 10.0, 11.0].iter().map(|v| v.to_bits()).collect();
            assert_eq!(slice.as_f32().unwrap().as_slice(), expected.as_slice());
        },
        _ => panic!("first part should be a heatmap"),
    }
    match &rendering.parts[1] {
        (ElementData::Value(slice), suffix) => {
            assert_eq!(suffix, "tail");
            assert!(slice.shape().is_empty());
            assert_eq!(slice.as_u32().unwrap().as_slice(), &[9]);
        },
        _ => panic!("second part should be a value"),
    }
}

#[test]
fn focus_sequences_may_mix_scopes() {
    let mut builder = PayloadBuilder::new(2, 1);
    builder
        .mlp_neuron_template(NeuronTemplate::parse("$focus_sequences(acts, steps)").unwrap());
    let acts_values: Vec<f32> = (0..2 * 1 * 2 * 2).map(|i| i as f32 / 4.0).collect();
    let acts = Value::new(
        ValueArray::F32(acts_values.iter().map(|v| v.to_bits()).collect()),
        vec![2, 1, 2, 2],
        Scope::Neuron,
    )
    .unwrap();
    builder.add_value("acts".to_string(), acts).unwrap();
    let steps = Value::new(
        ValueArray::String(vec![
            "a1".to_string(),
            "a2".to_string(),
            "b1".to_string(),
            "b2".to_string(),
        ]),
        vec![2, 2],
        Scope::Global,
    )
    .unwrap();
    builder.add_value("steps".to_string(), steps).unwrap();
    let payload = builder.build().unwrap();

    let rendering = payload.render_neuron(1, 0);
    match &rendering.parts[0] {
        (ElementData::FocusSequences { activations, step_names }, _) => {
            assert_eq!(activations.shape().as_slice(), &[2, 2]);
            assert_eq!(step_names.shape().as_slice(), &[2, 2]);
            let expected: Vec<u32> =
                [1.0f32, 1.25, 1.5, 1.75].iter().map(|v| v.to_bits()).collect();
            assert_eq!(activations.as_f32().unwrap().as_slice(), expected.as_slice());
            let names = step_names.as_string().unwrap();
            assert_eq!(names.as_slice(), &["a1", "a2", "b1", "b2"]);
        },
        _ => panic!("part should be focus sequences"),
    }
}

#[test]
fn navigation_walks_neurons_then_layers() {
    assert_eq!(
        navigation_links(2, 3, 0, 0),
        NavigationLinks {
            previous: None,
            next: Some(NavTarget::Neuron { neuron_index: 1 }),
        },
    );
    assert_eq!(
        navigation_links(2, 3, 0, 2),
        NavigationLinks {
            previous: Some(NavTarget::Neuron { neuron_index: 1 }),
            next: Some(NavTarget::LayerNeuron { layer_index: 1, neuron_index: 0 }),
        },
    );
    assert_eq!(
        navigation_links(2, 3, 1, 0),
        NavigationLinks {
            previous: Some(NavTarget::LayerNeuron { layer_index: 0, neuron_index: 2 }),
            next: Some(NavTarget::Neuron { neuron_index: 1 }),
        },
    );
    assert_eq!(
        navigation_links(2, 3, 1, 2),
        NavigationLinks {
            previous: Some(NavTarget::Neuron { neuron_index: 1 }),
            next: None,
        },
    );
}
