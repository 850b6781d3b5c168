//! The payload builder: shape and naming invariants at `add_value`, the
//! rank source checks, the derived ranking tables, and validation
//! front-loading — a bad template reference fails at `build`, never at
//! render time.

use transformer_scope::errors::{ArgumentErrorType, BuilderError};
use transformer_scope::neuron_template::NeuronTemplate;
use transformer_scope::payload_builder::PayloadBuilder;
use transformer_scope::value::{DataType, Scope, Value, ValueArray};

fn f32_value(values: &[f32], shape: &[usize], scope: Scope) -> Value {
    let bits: Vec<u32> = values.iter().map(|v| v.to_bits()).collect();
    Value::new(ValueArray::F32(bits), shape.to_vec(), scope).unwrap()
}

fn u32_value(values: &[u32], shape: &[usize], scope: Scope) -> Value {
    Value::new(ValueArray::U32(values.to_vec()), shape.to_vec(), scope).unwrap()
}

fn template(source: &str) -> NeuronTemplate {
    NeuronTemplate::parse(source).unwrap()
}

#[test]
fn builds_ranking_from_variance_metric() {
    // Two layers of three neurons; the metric ranks each layer ascending.
    let mut builder = PayloadBuilder::new(2, 3);
    builder.mlp_neuron_template(template("$heatmap(activation)"));
    let activation = f32_value(&[0.25; 2 * 3 * 8 * 8], &[2, 3, 8, 8], Scope::Neuron);
    builder.add_value("activation".to_string(), activation).unwrap();
    let variance = f32_value(&[0.5, 0.1, 0.9, 0.3, 0.7, 0.2], &[2, 3], Scope::Neuron);
    builder.add_value("variance".to_string(), variance).unwrap();
    builder.set_rank_values("variance".to_string()).unwrap();
    let payload = builder.build().unwrap();

    let rank = payload.value("rank").unwrap();
    assert_eq!(rank.scope(), Scope::Neuron);
    assert_eq!(rank.data_type(), DataType::U32);
    assert_eq!(rank.shape().as_slice(), &[2, 3]);
    let rank_data = rank.as_u32().unwrap();
    assert_eq!(&rank_data[0..3], &[1, 0, 2]);

    let ranked = payload.ranked_neurons().unwrap();
    assert_eq!(ranked.scope(), Scope::Global);
    assert_eq!(ranked.shape().as_slice(), &[2, 3]);
    let ranked_data = ranked.as_u32().unwrap();
    assert_eq!(&ranked_data[0..3], &[1, 0, 2]);
    assert_eq!(&ranked_data[3..6], &[2, 0, 1]);
}

#[test]
fn layer_value_must_match_layer_count() {
    let mut builder = PayloadBuilder::new(2, 3);
    let bad = f32_value(&[1.0, 2.0, 3.0], &[3], Scope::Layer);
    let err = builder.add_value("per_layer".to_string(), bad).unwrap_err();
    match err {
        BuilderError::ShapeMismatch { value_name, scope, shape } => {
            assert_eq!(value_name, "per_layer");
            assert_eq!(scope, Scope::Layer);
            assert_eq!(shape, vec![3]);
        },
        _ => panic!("wrong error kind"),
    }
}

#[test]
fn neuron_value_must_match_both_dimensions() {
    let mut builder = PayloadBuilder::new(2, 3);
    let bad = f32_value(&[0.0; 8], &[2, 4], Scope::Neuron);
    assert!(matches!(
        builder.add_value("x".to_string(), bad),
        Err(BuilderError::ShapeMismatch { .. })
    ));
}

#[test]
fn duplicate_names_are_refused() {
    let mut builder = PayloadBuilder::new(1, 2);
    let v = f32_value(&[1.0, 2.0], &[1, 2], Scope::Neuron);
    builder.add_value("twice".to_string(), v).unwrap();
    let v2 = f32_value(&[3.0, 4.0], &[1, 2], Scope::Neuron);
    let err = builder.add_value("twice".to_string(), v2).unwrap_err();
    assert!(matches!(err, BuilderError::DuplicateName(name) if name == "twice"));
}

#[test]
fn reserved_names_are_refused() {
    let mut builder = PayloadBuilder::new(1, 2);
    let v = u32_value(&[1, 2], &[1, 2], Scope::Neuron);
    assert!(matches!(
        builder.add_value("rank".to_string(), v),
        Err(BuilderError::DuplicateName(name)) if name == "rank"
    ));
    let v2 = u32_value(&[1, 2], &[1, 2], Scope::Neuron);
    assert!(matches!(
        builder.add_value("ranked_neurons".to_string(), v2),
        Err(BuilderError::DuplicateName(name)) if name == "ranked_neurons"
    ));
}

#[test]
fn rank_source_must_exist() {
    let mut builder = PayloadBuilder::new(1, 2);
    let err = builder.set_rank_values("missing".to_string()).unwrap_err();
    assert!(matches!(err, BuilderError::NotFound(name) if name == "missing"));
}

#[test]
fn rank_source_must_be_f32() {
    let mut builder = PayloadBuilder::new(1, 2);
    let v = u32_value(&[5, 6], &[1, 2], Scope::Neuron);
    builder.add_value("counts".to_string(), v).unwrap();
    let err = builder.set_rank_values("counts".to_string()).unwrap_err();
    match err {
        BuilderError::TypeMismatch { value_name, required, found } => {
            assert_eq!(value_name, "counts");
            assert_eq!(required, DataType::F32);
            assert_eq!(found, DataType::U32);
        },
        _ => panic!("wrong error kind"),
    }
}

#[test]
fn rank_source_must_be_one_scalar_per_neuron() {
    let mut builder = PayloadBuilder::new(1, 2);
    let v = f32_value(&[1.0, 2.0, 3.0, 4.0], &[1, 2, 2], Scope::Neuron);
    builder.add_value("wide".to_string(), v).unwrap();
    assert!(matches!(
        builder.set_rank_values("wide".to_string()),
        Err(BuilderError::ShapeMismatch { .. })
    ));
}

#[test]
fn rank_source_must_be_neuron_scoped() {
    let mut builder = PayloadBuilder::new(2, 3);
    let v = f32_value(&[0.0; 6], &[2, 3], Scope::Global);
    builder.add_value("global_table".to_string(), v).unwrap();
    match builder.set_rank_values("global_table".to_string()).unwrap_err() {
        BuilderError::ShapeMismatch { value_name, scope, shape } => {
            assert_eq!(value_name, "global_table");
            assert_eq!(scope, Scope::Global);
            assert_eq!(shape, vec![2, 3]);
        },
        _ => panic!("wrong error kind"),
    }
}

#[test]
fn contains_key_sees_added_values() {
    let mut builder = PayloadBuilder::new(1, 2);
    assert!(!builder.contains_key("metric"));
    let v = f32_value(&[1.0, 2.0], &[1, 2], Scope::Neuron);
    builder.add_value("metric".to_string(), v).unwrap();
    assert!(builder.contains_key("metric"));
    assert!(!builder.contains_key("other"));
}

#[test]
fn build_without_template_is_refused() {
    let builder = PayloadBuilder::new(1, 1);
    assert!(matches!(builder.build(), Err(BuilderError::TemplateNotSet)));
}

#[test]
fn missing_template_reference_fails_at_build() {
    let mut builder = PayloadBuilder::new(2, 3);
    builder.mlp_neuron_template(template("$heatmap(activation)"));
    let err = builder.build().unwrap_err();
    match err {
        BuilderError::Argument(e) => {
            assert_eq!(e.value_name, "activation");
            assert!(matches!(
                e.error_type,
                ArgumentErrorType::MissingValue(name) if name == "activation"
            ));
        },
        _ => panic!("wrong error kind"),
    }
}

#[test]
fn extra_axis_on_scalar_value_fails_at_build() {
    let mut builder = PayloadBuilder::new(2, 3);
    builder.mlp_neuron_template(template("$value(variance)"));
    let variance = f32_value(&[0.0; 12], &[2, 3, 2], Scope::Neuron);
    builder.add_value("variance".to_string(), variance).unwrap();
    let err = builder.build().unwrap_err();
    match err {
        BuilderError::Argument(e) => {
            assert_eq!(e.value_name, "variance");
            match e.error_type {
                ArgumentErrorType::AxisNum { required_axis_num, found_axis_num } => {
                    assert_eq!(required_axis_num, 0);
                    assert_eq!(found_axis_num, 1);
                },
                _ => panic!("wrong error type"),
            }
        },
        _ => panic!("wrong error kind"),
    }
}

#[test]
fn heatmap_argument_must_be_f32() {
    let mut builder = PayloadBuilder::new(1, 1);
    builder.mlp_neuron_template(template("$heatmap(board)"));
    let board = u32_value(&[1, 2, 3, 4], &[1, 1, 2, 2], Scope::Neuron);
    builder.add_value("board".to_string(), board).unwrap();
    let err = builder.build().unwrap_err();
    match err {
        BuilderError::Argument(e) => {
            assert!(matches!(
                e.error_type,
                ArgumentErrorType::DataType { required_data_type: DataType::F32, found_data_type: DataType::U32 }
            ));
        },
        _ => panic!("wrong error kind"),
    }
}

#[test]
fn focus_sequences_shapes_must_agree() {
    let mut builder = PayloadBuilder::new(1, 1);
    builder.mlp_neuron_template(template("$focus_sequences(acts, steps)"));
    let acts = f32_value(&[0.0; 6], &[1, 1, 2, 3], Scope::Neuron);
    builder.add_value("acts".to_string(), acts).unwrap();
    let steps = Value::new(
        ValueArray::String(vec!["a".to_string(), "b".to_string(), "c".to_string(), "d".to_string()]),
        vec![2, 2],
        Scope::Global,
    )
    .unwrap();
    builder.add_value("steps".to_string(), steps).unwrap();
    let err = builder.build().unwrap_err();
    match err {
        BuilderError::Argument(e) => {
            assert_eq!(e.value_name, "steps");
            assert!(matches!(e.error_type, ArgumentErrorType::Other(_)));
        },
        _ => panic!("wrong error kind"),
    }
}

#[test]
fn build_without_rank_source_keeps_store_as_added() {
    let mut builder = PayloadBuilder::new(1, 2);
    builder.mlp_neuron_template(template("literal only"));
    let v = f32_value(&[1.0, 2.0], &[1, 2], Scope::Neuron);
    builder.add_value("metric".to_string(), v).unwrap();
    let payload = builder.build().unwrap();
    assert_eq!(payload.num_layers(), 1);
    assert_eq!(payload.num_mlp_neurons(), 2);
    assert!(payload.value("metric").is_some());
    assert!(payload.value("rank").is_none());
    assert!(payload.ranked_neurons().is_none());
}
