//! The neuron ranking: ascending by metric under the `f32` total order,
//! ties and NaNs ordered deterministically, and the two derived tables
//! mutually inverse.

use transformer_scope::neuron_rankings::{calculate_neuron_rankings, total_order_key};

fn bits(values: &[f32]) -> Vec<u32> {
    values.iter().map(|v| v.to_bits()).collect()
}

#[test]
fn ranks_single_layer_ascending() {
    let metric = bits(&[0.5, 0.1, 0.9]);
    let (ranks, ranked) = calculate_neuron_rankings(&metric, 1, 3);
    assert_eq!(ranks, vec![1, 0, 2]);
    assert_eq!(ranked, vec![1, 0, 2]);
}

#[test]
fn ranks_two_layers_independently() {
    let metric = bits(&[0.5, 0.1, 0.9, 0.3, 0.7, 0.2]);
    let (ranks, ranked) = calculate_neuron_rankings(&metric, 2, 3);
    assert_eq!(&ranks[0..3], &[1, 0, 2]);
    assert_eq!(&ranked[0..3], &[1, 0, 2]);
    assert_eq!(&ranks[3..6], &[1, 2, 0]);
    assert_eq!(&ranked[3..6], &[2, 0, 1]);
}

#[test]
fn ranking_tables_are_inverse() {
    let metric = bits(&[3.5, -1.0, 0.0, 7.25, -2.5, 4.0, 0.25, -0.75]);
    let (ranks, ranked) = calculate_neuron_rankings(&metric, 2, 4);
    for layer in 0..2usize {
        for neuron in 0..4usize {
            let rank = ranks[layer * 4 + neuron] as usize;
            assert!(rank < 4);
            assert_eq!(ranked[layer * 4 + rank] as usize, neuron);
        }
        let mut seen = [false; 4];
        for neuron in 0..4usize {
            seen[ranks[layer * 4 + neuron] as usize] = true;
        }
        assert!(seen.iter().all(|s| *s));
    }
}

#[test]
fn ties_break_by_neuron_index() {
    let metric = bits(&[1.0, 1.0, 0.5, 1.0]);
    let (ranks, ranked) = calculate_neuron_rankings(&metric, 1, 4);
    assert_eq!(ranks, vec![1, 2, 0, 3]);
    assert_eq!(ranked, vec![2, 0, 1, 3]);
}

#[test]
fn nan_sorts_above_infinity() {
    let metric = bits(&[f32::NAN, f32::INFINITY, 0.0]);
    let (_, ranked) = calculate_neuron_rankings(&metric, 1, 3);
    assert_eq!(ranked, vec![2, 1, 0]);
}

#[test]
fn negative_nan_sorts_below_negative_infinity() {
    let negative_nan = f32::from_bits(0xFFC0_0000);
    assert!(negative_nan.is_nan());
    let metric = vec![negative_nan.to_bits(), f32::NEG_INFINITY.to_bits(), 0.0f32.to_bits()];
    let (_, ranked) = calculate_neuron_rankings(&metric, 1, 3);
    assert_eq!(ranked, vec![0, 1, 2]);
}

#[test]
fn negative_zero_sorts_below_positive_zero() {
    let metric = bits(&[0.0, -0.0]);
    let (_, ranked) = calculate_neuron_rankings(&metric, 1, 2);
    assert_eq!(ranked, vec![1, 0]);
}

#[test]
fn smaller_metric_never_outranks_larger() {
    let values = [2.5f32, -1.0, 2.5, 0.0, -0.25, 7.0, -1.0, 3.5];
    let metric = bits(&values);
    let (ranks, _) = calculate_neuron_rankings(&metric, 1, values.len());
    for (a, &va) in values.iter().enumerate() {
        for (b, &vb) in values.iter().enumerate() {
            if va.total_cmp(&vb) == std::cmp::Ordering::Less {
                assert!(ranks[a] < ranks[b], "{va} should rank below {vb}");
            }
        }
    }
}

#[test]
fn total_order_key_matches_total_cmp() {
    let samples = [
        f32::NEG_INFINITY,
        -1.5,
        -0.0,
        0.0,
        f32::MIN_POSITIVE,
        2.75,
        f32::INFINITY,
        f32::NAN,
        f32::from_bits(0xFFC0_0000),
    ];
    assert_eq!(total_order_key(0.0f32.to_bits()), 0x8000_0000);
    for a in samples {
        for b in samples {
            let by_key = total_order_key(a.to_bits()).cmp(&total_order_key(b.to_bits()));
            assert_eq!(by_key, a.total_cmp(&b), "{a:?} vs {b:?}");
        }
    }
}
