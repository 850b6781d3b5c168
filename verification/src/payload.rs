//! The immutable, queryable snapshot: dimensions, the neuron page
//! template, and the value store, validated once at construction.
//!
//! A payload is never mutated after it is built, so its invariant —
//! unique names, shapes that agree with the dimensions, a template
//! whose every argument resolves and fits — holds for its whole life,
//! and rendering needs no re-validation.

use vstd::prelude::*;

use crate::element::{
    generate_element, spec_element_data, spec_validate_element, Element, ElementData,
};
use crate::errors::{ArgumentError, ArgumentErrorModel};
use crate::neuron_template::{
    lemma_validate_segments_each, spec_validate_template, NeuronTemplate, TemplateModel,
};
use crate::value::Value;
use crate::values::{
    store_dims_ok, store_get, store_scopes_consistent, store_wf, StoreModel, Values,
};

verus! {

/// Model of a [`Payload`].
#[verifier::ext_equal]
pub ghost struct PayloadModel {
    pub num_layers: usize,
    pub num_mlp_neurons: usize,
    pub template: TemplateModel,
    pub store: StoreModel,
}

impl PayloadModel {
    /// The payload invariant: names unique and values well-formed,
    /// every value's index axes agreeing with the dimensions, and the
    /// template validated against the store.
    pub open spec fn wf(self) -> bool {
        &&& store_wf(self.store)
        &&& store_dims_ok(self.store, self.num_layers, self.num_mlp_neurons)
        &&& spec_validate_template(self.template, self.store) is None
    }
}

/// Every value whose index axes agree with the dimensions has at least
/// as many axes as its scope consumes.
pub proof fn lemma_dims_ok_scopes_consistent(
    s: StoreModel,
    num_layers: usize,
    num_mlp_neurons: usize,
)
    requires
        store_dims_ok(s, num_layers, num_mlp_neurons),
    ensures
        store_scopes_consistent(s),
{
    assert forall|i: int|
        0 <= i < s.len() implies (#[trigger] s[i].1).shape.len()
        >= s[i].1.scope.spec_index_axis_count() by {
        assert(s[i].1.dims_ok(num_layers, num_mlp_neurons));
    }
}

/// The immutable snapshot a renderer reads: dimensions, template, and
/// the store of named values. It is never mutated once built, so it is
/// safe to share read-only across concurrent renderers.
#[derive(Debug)]
pub struct Payload {
    num_layers: usize,
    num_mlp_neurons: usize,
    mlp_neuron_template: NeuronTemplate,
    values: Values,
}

impl View for Payload {
    type V = PayloadModel;

    closed spec fn view(&self) -> PayloadModel {
        PayloadModel {
            num_layers: self.num_layers,
            num_mlp_neurons: self.num_mlp_neurons,
            template: self.mlp_neuron_template@,
            store: self.values@,
        }
    }
}

impl Payload {
    /// The payload invariant, carried by the type itself: every
    /// payload that exists satisfies [`PayloadModel::wf`].
    #[verifier::type_invariant]
    pub open spec fn type_inv(self) -> bool {
        self@.wf()
    }

    /// Freezes dimensions, template and store into a payload, running
    /// the validation protocol once: every element of the template is
    /// checked against the full store, and the first failure is
    /// reported instead of a payload.
    pub fn new(
        num_layers: usize,
        num_mlp_neurons: usize,
        mlp_neuron_template: NeuronTemplate,
        values: Values,
    ) -> (r: Result<Payload, ArgumentError>)
        requires
            store_wf(values@),
            store_dims_ok(values@, num_layers, num_mlp_neurons),
        ensures
            match r {
                Ok(p) => spec_validate_template(mlp_neuron_template@, values@) is None && p@ == (
                PayloadModel {
                    num_layers,
                    num_mlp_neurons,
                    template: mlp_neuron_template@,
                    store: values@,
                }),
                Err(e) => spec_validate_template(mlp_neuron_template@, values@) == Some(e@),
            },
    {
        proof {
            lemma_dims_ok_scopes_consistent(values@, num_layers, num_mlp_neurons);
        }
        match mlp_neuron_template.validate_against(&values) {
            Ok(()) => Ok(
                Payload { num_layers, num_mlp_neurons, mlp_neuron_template, values },
            ),
            Err(e) => Err(e),
        }
    }

    /// Number of layers.
    pub fn num_layers(&self) -> (n: usize)
        ensures
            n == self@.num_layers,
    {
        self.num_layers
    }

    /// Number of MLP neurons per layer.
    pub fn num_mlp_neurons(&self) -> (n: usize)
        ensures
            n == self@.num_mlp_neurons,
    {
        self.num_mlp_neurons
    }

    /// The neuron page template.
    pub fn neuron_template(&self) -> (t: &NeuronTemplate)
        ensures
            t@ == self@.template,
    {
        &self.mlp_neuron_template
    }

    /// The store itself, for the snapshot codec.
    pub(crate) fn store(&self) -> (r: &Values)
        ensures
            r@ == self@.store,
    {
        &self.values
    }

    /// The value stored under `key`, if any.
    pub fn value(&self, key: &str) -> (r: Option<&Value>)
        ensures
            match r {
                Some(v) => store_get(self@.store, key@) == Some(v@),
                None => store_get(self@.store, key@) is None,
            },
    {
        self.values.get(key)
    }

    /// The derived `ranked_neurons` table — for each layer and rank
    /// position, the neuron index holding that rank — where a ranking
    /// was derived.
    pub fn ranked_neurons(&self) -> (r: Option<&Value>)
        ensures
            match r {
                Some(v) => store_get(self@.store, "ranked_neurons"@) == Some(v@),
                None => store_get(self@.store, "ranked_neurons"@) is None,
            },
    {
        self.values.get("ranked_neurons")
    }

    /// Renders one neuron's data: evaluates every directive of the
    /// template at `(layer_index, neuron_index)` and hands back the
    /// sliced views with the literal text around them.
    pub fn render_neuron(&self, layer_index: usize, neuron_index: usize) -> (r: NeuronRendering)
        requires
            layer_index < self@.num_layers,
            neuron_index < self@.num_mlp_neurons,
        ensures
            rendering_matches(r@, self@, layer_index as int, neuron_index as int),
    {
        proof {
            use_type_invariant(self);
        }
        self.mlp_neuron_template.generate(self, layer_index, neuron_index)
    }
}

/// Model of a [`NeuronRendering`].
#[verifier::ext_equal]
pub ghost struct NeuronRenderingModel {
    pub prefix: Seq<char>,
    pub parts: Seq<(crate::element::ElementDataModel, Seq<char>)>,
}

/// What a neuron's rendering must hold: the template's literal prefix,
/// and, for each directive in order, the element's data evaluated at
/// the coordinate together with the directive's literal suffix.
pub open spec fn rendering_matches(
    r: NeuronRenderingModel,
    p: PayloadModel,
    layer: int,
    neuron: int,
) -> bool {
    &&& r.prefix == p.template.prefix
    &&& r.parts.len() == p.template.segments.len()
    &&& forall|i: int|
        0 <= i < r.parts.len() ==> (#[trigger] r.parts[i]) == (
        spec_element_data(p.template.segments[i].0, p.store, layer, neuron),
        p.template.segments[i].1,
        )
}

/// One neuron's evaluated page: the data each element renderer
/// receives, in template order, with the literal text around it.
#[derive(Clone, Debug)]
pub struct NeuronRendering {
    pub prefix: String,
    pub parts: Vec<(ElementData, String)>,
}

impl View for NeuronRendering {
    type V = NeuronRenderingModel;

    open spec fn view(&self) -> NeuronRenderingModel {
        NeuronRenderingModel {
            prefix: self.prefix@,
            parts: Seq::new(self.parts@.len(), |i: int| (self.parts@[i].0@, self.parts@[i].1@)),
        }
    }
}

impl Element {
    /// Validates this element's arguments against a payload's store;
    /// see [`spec_validate_element`].
    pub fn validate_arguments(&self, payload: &Payload) -> (r: Result<(), ArgumentError>)
        ensures
            match r {
                Ok(()) => spec_validate_element(self@, payload@.store) is None,
                Err(e) => spec_validate_element(self@, payload@.store) == Some(e@),
            },
    {
        proof {
            use_type_invariant(payload);
            lemma_dims_ok_scopes_consistent(
                payload@.store,
                payload@.num_layers,
                payload@.num_mlp_neurons,
            );
        }
        crate::element::validate_element_against(self, &payload.values)
    }

    /// Evaluates this element at a coordinate of a payload that
    /// validates it: resolves each argument and slices it by its own
    /// scope's rule.
    pub fn generate(&self, payload: &Payload, layer_index: usize, neuron_index: usize) -> (r:
        ElementData)
        requires
            spec_validate_element(self@, payload@.store) is None,
            layer_index < payload@.num_layers,
            neuron_index < payload@.num_mlp_neurons,
        ensures
            r@ == spec_element_data(
                self@,
                payload@.store,
                layer_index as int,
                neuron_index as int,
            ),
    {
        proof {
            use_type_invariant(payload);
        }
        generate_element(
            self,
            &payload.values,
            payload.num_layers,
            payload.num_mlp_neurons,
            layer_index,
            neuron_index,
        )
    }
}

impl NeuronTemplate {
    /// Evaluates every directive at `(layer_index, neuron_index)`.
    /// Validation has already guaranteed shape and type correctness at
    /// payload construction, so evaluation is total: it cannot fail on
    /// any in-range coordinate.
    pub fn generate(&self, payload: &Payload, layer_index: usize, neuron_index: usize) -> (r:
        NeuronRendering)
        requires
            spec_validate_template(self@, payload@.store) is None,
            layer_index < payload@.num_layers,
            neuron_index < payload@.num_mlp_neurons,
        ensures
            r@.prefix == self@.prefix,
            r@.parts.len() == self@.segments.len(),
            forall|i: int|
                0 <= i < r@.parts.len() ==> (#[trigger] r@.parts[i]) == (
                spec_element_data(
                    self@.segments[i].0,
                    payload@.store,
                    layer_index as int,
                    neuron_index as int,
                ),
                self@.segments[i].1,
                ),
    {
        proof {
            use_type_invariant(payload);
        }
        let n = self.segment_count();
        let mut parts: Vec<(ElementData, String)> = Vec::new();
        let mut i: usize = 0;
        while i < n
            invariant
                0 <= i <= n,
                n == self@.segments.len(),
                spec_validate_template(self@, payload@.store) is None,
                layer_index < payload@.num_layers,
                neuron_index < payload@.num_mlp_neurons,
                parts@.len() == i,
                forall|k: int|
                    0 <= k < i ==> ((#[trigger] parts@[k]).0@, parts@[k].1@) == (
                    spec_element_data(
                        self@.segments[k].0,
                        payload@.store,
                        layer_index as int,
                        neuron_index as int,
                    ),
                    self@.segments[k].1,
                    ),
            decreases n - i,
        {
            let (element, suffix) = self.segment_at(i);
            proof {
                lemma_validate_segments_each(self@.segments, payload@.store, i as int);
            }
            let data = element.generate(payload, layer_index, neuron_index);
            parts.push((data, crate::text::copy_str(suffix.as_str())));
            i = i + 1;
        }
        let r = NeuronRendering { prefix: crate::text::copy_str(self.prefix().as_str()), parts };
        r
    }
}

} // verus!
