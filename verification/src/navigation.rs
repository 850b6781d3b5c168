//! Which neighbouring neuron pages a neuron page links to: the previous
//! and next coordinate in the layer-major page order, if any.

use vstd::prelude::*;

verus! {

/// A page a navigation link points to.
#[derive(Clone, Copy, Debug, PartialEq, Eq, Structural)]
pub enum NavTarget {
    /// Another neuron of the same layer.
    Neuron { neuron_index: usize },
    /// A neuron of another layer.
    LayerNeuron { layer_index: usize, neuron_index: usize },
}

/// The two neighbour links of one neuron page.
#[derive(Clone, Copy, Debug, PartialEq, Eq, Structural)]
pub struct NavigationLinks {
    pub previous: Option<NavTarget>,
    pub next: Option<NavTarget>,
}

/// The previous and next page of `(layer_index, neuron_index)` in
/// layer-major order: the neighbouring neuron within the layer where
/// there is one, else the nearest neuron of the neighbouring layer,
/// else nothing at the two ends.
pub fn navigation_links(
    num_layers: usize,
    num_neurons: usize,
    layer_index: usize,
    neuron_index: usize,
) -> (r: NavigationLinks)
    requires
        layer_index < num_layers,
        neuron_index < num_neurons,
    ensures
        r.previous == (if neuron_index > 0 {
            Some(NavTarget::Neuron { neuron_index: (neuron_index - 1) as usize })
        } else if layer_index > 0 {
            Some(
                NavTarget::LayerNeuron {
                    layer_index: (layer_index - 1) as usize,
                    neuron_index: (num_neurons - 1) as usize,
                },
            )
        } else {
            None
        }),
        r.next == (if neuron_index + 1 < num_neurons {
            Some(NavTarget::Neuron { neuron_index: (neuron_index + 1) as usize })
        } else if layer_index + 1 < num_layers {
            Some(NavTarget::LayerNeuron { layer_index: (layer_index + 1) as usize, neuron_index: 0 })
        } else {
            None
        }),
{
    let previous = if neuron_index > 0 {
        Some(NavTarget::Neuron { neuron_index: neuron_index - 1 })
    } else if layer_index > 0 {
        Some(
            NavTarget::LayerNeuron {
                layer_index: layer_index - 1,
                neuron_index: num_neurons - 1,
            },
        )
    } else {
        None
    };
    let next = if neuron_index < num_neurons - 1 {
        Some(NavTarget::Neuron { neuron_index: neuron_index + 1 })
    } else if layer_index < num_layers - 1 {
        Some(NavTarget::LayerNeuron { layer_index: layer_index + 1, neuron_index: 0 })
    } else {
        None
    };
    NavigationLinks { previous, next }
}

} // verus!
