//! The snapshot codec: a serialized payload deserializes to the same
//! payload, value for value, and malformed bytes yield nothing.

use transformer_scope::codec::{deserialize, serialize};
use transformer_scope::neuron_template::NeuronTemplate;
use transformer_scope::payload::Payload;
use transformer_scope::payload_builder::PayloadBuilder;
use transformer_scope::value::{DataType, Scope, Value, ValueArray};

fn sample_payload() -> Payload {
    let mut builder = PayloadBuilder::new(2, 3);
    builder.mlp_neuron_template(
        NeuronTemplate::parse("top$heatmap(board)middle$value(variance)end").unwrap(),
    );
    let board_values: Vec<f32> = (0..2 * 3 * 2 * 2).map(|i| (i as f32) * 0.5 - 3.0).collect();
    let board = Value::new(
        ValueArray::F32(board_values.iter().map(|v| v.to_bits()).collect()),
        vec![2, 3, 2, 2],
        Scope::Neuron,
    )
    .unwrap();
    builder.add_value("board".to_string(), board).unwrap();
    let variance_values = [0.5f32, 0.1, 0.9, 0.3, 0.7, 0.2];
    let variance = Value::new(
        ValueArray::F32(variance_values.iter().map(|v| v.to_bits()).collect()),
        vec![2, 3],
        Scope::Neuron,
    )
    .unwrap();
    builder.add_value("variance".to_string(), variance).unwrap();
    let labels = Value::new(
        ValueArray::String(vec!["alpha".to_string(), "beta".to_string()]),
        vec![2],
        Scope::Layer,
    )
    .unwrap();
    builder.add_value("labels".to_string(), labels).unwrap();
    builder.set_rank_values("variance".to_string()).unwrap();
    builder.build().unwrap()
}

fn assert_same_value(a: &Value, b: &Value) {
    assert_eq!(a.scope(), b.scope());
    assert_eq!(a.data_type(), b.data_type());
    assert_eq!(a.shape(), b.shape());
    match a.data_type() {
        DataType::String => assert_eq!(a.as_string().unwrap(), b.as_string().unwrap()),
        DataType::U32 => assert_eq!(a.as_u32().unwrap(), b.as_u32().unwrap()),
        DataType::F32 => assert_eq!(a.as_f32().unwrap(), b.as_f32().unwrap()),
    }
}

#[test]
fn round_trip_preserves_everything() {
    let payload = sample_payload();
    let bytes = serialize(&payload);
    let back = deserialize(&bytes).expect("serialized payload must deserialize");

    assert_eq!(back.num_layers(), payload.num_layers());
    assert_eq!(back.num_mlp_neurons(), payload.num_mlp_neurons());
    for name in ["board", "variance", "labels", "rank", "ranked_neurons"] {
        assert_same_value(payload.value(name).unwrap(), back.value(name).unwrap());
    }

    let a = payload.render_neuron(1, 2);
    let b = back.render_neuron(1, 2);
    assert_eq!(a.prefix, b.prefix);
    assert_eq!(a.parts.len(), b.parts.len());
    for ((_, sa), (_, sb)) in a.parts.iter().zip(b.parts.iter()) {
        assert_eq!(sa, sb);
    }
}

#[test]
fn serialization_is_deterministic() {
    let bytes_a = serialize(&sample_payload());
    let bytes_b = serialize(&sample_payload());
    assert_eq!(bytes_a, bytes_b);
}

#[test]
fn empty_bytes_do_not_deserialize() {
    assert!(deserialize(&Vec::new()).is_none());
}

#[test]
fn truncated_bytes_do_not_deserialize() {
    let payload = sample_payload();
    let bytes = serialize(&payload);
    let truncated: Vec<u8> = bytes[..bytes.len() - 1].to_vec();
    assert!(deserialize(&truncated).is_none());
}

#[test]
fn garbage_bytes_do_not_deserialize() {
    let garbage: Vec<u8> = (0..64u8).map(|i| i.wrapping_mul(37).wrapping_add(11)).collect();
    assert!(deserialize(&garbage).is_none());
}
