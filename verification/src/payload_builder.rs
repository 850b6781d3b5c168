//! The staged builder that accumulates named values under the shape and
//! naming invariants, derives the neuron ranking from a chosen metric,
//! and freezes everything into an immutable [`Payload`].
//!
//! `build` consumes the builder, so a payload cannot be amended after
//! the fact; the names `"rank"` and `"ranked_neurons"` are reserved for
//! the two derived tables and refused from producers.

use vstd::prelude::*;

use crate::errors::{BuilderError, BuilderErrorModel};
use crate::neuron_rankings::{calculate_neuron_rankings, ranking_ok};
use crate::neuron_template::{spec_validate_template, NeuronTemplate, TemplateModel};
use crate::payload::{Payload, PayloadModel};
use crate::text::{copy_str, str_eq};
use crate::value::{
    lemma_elem_product_pair, DataType, Scope, Value, ValueArray, ValueModel,
};
use crate::values::{
    lemma_store_get_none, lemma_store_get_push, store_contains, store_dims_ok, store_get,
    store_wf, StoreModel, Values,
};

verus! {

/// Model of a [`PayloadBuilder`].
#[verifier::ext_equal]
pub ghost struct BuilderModel {
    pub num_layers: usize,
    pub num_mlp_neurons: usize,
    pub template: Option<TemplateModel>,
    pub store: StoreModel,
    pub rank_key: Option<Seq<char>>,
}

impl BuilderModel {
    /// The builder invariant: the store holds unique, well-formed
    /// values whose index axes agree with the dimensions; the reserved
    /// names are still free; and the chosen rank source, if any, is a
    /// stored Neuron-scoped `f32` value with one scalar per neuron.
    pub open spec fn wf(self) -> bool {
        &&& self.num_mlp_neurons <= u32::MAX
        &&& store_wf(self.store)
        &&& store_dims_ok(self.store, self.num_layers, self.num_mlp_neurons)
        &&& !store_contains(self.store, "rank"@)
        &&& !store_contains(self.store, "ranked_neurons"@)
        &&& match self.rank_key {
            None => true,
            Some(k) => match store_get(self.store, k) {
                Some(v) => v.array is F32s && v.scope is Neuron && v.shape.len() == 2,
                None => false,
            },
        }
    }
}

/// The store a builder freezes: the producer's values and, where a rank
/// source was chosen, whether the two derived tables at the end are a
/// correct ranking of that source.
pub open spec fn built_store_ok(b: BuilderModel, store: StoreModel) -> bool {
    match b.rank_key {
        None => store == b.store,
        Some(k) => {
            let metric = store_get(b.store, k)->0.array->F32s_0;
            let rank_entry = store[b.store.len() as int];
            let ranked_entry = store[b.store.len() as int + 1];
            &&& store.len() == b.store.len() + 2
            &&& store.take(b.store.len() as int) == b.store
            &&& rank_entry.0 == "rank"@
            &&& ranked_entry.0 == "ranked_neurons"@
            &&& rank_entry.1.scope == Scope::Neuron
            &&& ranked_entry.1.scope == Scope::Global
            &&& rank_entry.1.shape == seq![b.num_layers, b.num_mlp_neurons]
            &&& ranked_entry.1.shape == seq![b.num_layers, b.num_mlp_neurons]
            &&& rank_entry.1.array is U32s
            &&& ranked_entry.1.array is U32s
            &&& ranking_ok(
                metric,
                b.num_layers as int,
                b.num_mlp_neurons as int,
                rank_entry.1.array->U32s_0,
                ranked_entry.1.array->U32s_0,
            )
        },
    }
}

/// Accumulates named values and a template, and derives the ranking,
/// before a single `build` freezes the payload.
#[derive(Debug)]
pub struct PayloadBuilder {
    num_layers: usize,
    num_mlp_neurons: usize,
    mlp_neuron_template: Option<NeuronTemplate>,
    values: Values,
    rank_values_key: Option<String>,
}

impl View for PayloadBuilder {
    type V = BuilderModel;

    closed spec fn view(&self) -> BuilderModel {
        BuilderModel {
            num_layers: self.num_layers,
            num_mlp_neurons: self.num_mlp_neurons,
            template: match self.mlp_neuron_template {
                Some(ref t) => Some(t@),
                None => None,
            },
            store: self.values@,
            rank_key: match self.rank_values_key {
                Some(ref k) => Some(k@),
                None => None,
            },
        }
    }
}

impl PayloadBuilder {
    /// A builder for a model with the given dimensions, with an empty
    /// store. Ranks are stored as `u32`, so a layer cannot hold more
    /// neurons than `u32::MAX`.
    pub fn new(num_layers: usize, num_mlp_neurons: usize) -> (r: PayloadBuilder)
        requires
            num_mlp_neurons <= u32::MAX,
        ensures
            r@ == (BuilderModel {
                num_layers,
                num_mlp_neurons,
                template: None,
                store: Seq::empty(),
                rank_key: None,
            }),
            r@.wf(),
    {
        let r = PayloadBuilder {
            num_layers,
            num_mlp_neurons,
            mlp_neuron_template: None,
            values: Values::new(),
            rank_values_key: None,
        };
        r
    }

    /// Attaches the neuron page template. The template is set once; a
    /// caller that may have set it already must not call this again.
    pub fn mlp_neuron_template(&mut self, neuron_template: NeuronTemplate)
        requires
            old(self)@.template is None,
        ensures
            final(self)@ == (BuilderModel { template: Some(neuron_template@), ..old(self)@ }),
            old(self)@.wf() ==> final(self)@.wf(),
    {
        self.mlp_neuron_template = Some(neuron_template);
    }

    /// Whether a value of that name has been added.
    pub fn contains_key(&self, key: &str) -> (r: bool)
        ensures
            r == store_contains(self@.store, key@),
    {
        self.values.contains_key(key)
    }

    /// Adds a named value. Fails with `ShapeMismatch` where the value's
    /// leading axes do not match its scope against the builder's
    /// dimensions, and with `DuplicateName` where the name is already
    /// stored or reserved; on failure the builder is unchanged.
    pub fn add_value(&mut self, key: String, value: Value) -> (r: Result<(), BuilderError>)
        requires
            old(self)@.wf(),
            value@.wf(),
        ensures
            final(self)@.wf(),
            match r {
                Ok(()) => value@.dims_ok(old(self)@.num_layers, old(self)@.num_mlp_neurons)
                    && !store_contains(old(self)@.store, key@) && key@ != "rank"@ && key@
                    != "ranked_neurons"@ && final(self)@ == (BuilderModel {
                    store: old(self)@.store.push((key@, value@)),
                    ..old(self)@
                }),
                Err(e) => final(self)@ == old(self)@ && match e@ {
                    BuilderErrorModel::ShapeMismatch { value_name, scope, shape } => !value@.dims_ok(
                        old(self)@.num_layers,
                        old(self)@.num_mlp_neurons,
                    ) && value_name == key@ && scope == value@.scope && shape == value@.shape,
                    BuilderErrorModel::DuplicateName(name) => value@.dims_ok(
                        old(self)@.num_layers,
                        old(self)@.num_mlp_neurons,
                    ) && (store_contains(old(self)@.store, key@) || key@ == "rank"@ || key@
                        == "ranked_neurons"@) && name == key@,
                    _ => false,
                },
            },
    {
        if !dims_check(&value, self.num_layers, self.num_mlp_neurons) {
            let shape = crate::value::copy_shape(value.shape());
            return Err(
                BuilderError::ShapeMismatch { value_name: key, scope: value.scope(), shape },
            );
        }
        if self.values.contains_key(key.as_str()) || str_eq(key.as_str(), "rank") || str_eq(
            key.as_str(),
            "ranked_neurons",
        ) {
            return Err(BuilderError::DuplicateName(key));
        }
        let ghost old_store = self.values@;
        let ghost key_view = key@;
        let ghost value_view = value@;
        self.values.insert(key, value);
        proof {
            lemma_store_get_none(old_store, key_view);
            let new_store = old_store.push((key_view, value_view));
            assert forall|i: int, j: int|
                0 <= i < j < new_store.len() implies (#[trigger] new_store[i].0) != (
            #[trigger] new_store[j].0) by {
                if j == new_store.len() - 1 {
                    assert(new_store[i] == old_store[i]);
                }
            }
            assert(store_wf(new_store));
            if self@.rank_key is Some {
                let k = self@.rank_key->0;
                lemma_store_get_push(old_store, k, (key_view, value_view));
                lemma_store_get_push(old_store, "rank"@, (key_view, value_view));
                lemma_store_get_push(old_store, "ranked_neurons"@, (key_view, value_view));
            } else {
                lemma_store_get_push(old_store, "rank"@, (key_view, value_view));
                lemma_store_get_push(old_store, "ranked_neurons"@, (key_view, value_view));
            }
        }
        Ok(())
    }

    /// Chooses the value that ranks neurons. Fails with `NotFound`
    /// where no such value was added, `TypeMismatch` where it is not
    /// `f32`, and `ShapeMismatch` where it is not Neuron-scoped with
    /// exactly one scalar per neuron; on failure the builder is
    /// unchanged.
    pub fn set_rank_values(&mut self, rank_values_key: String) -> (r: Result<(), BuilderError>)
        requires
            old(self)@.wf(),
        ensures
            final(self)@.wf(),
            match r {
                Ok(()) => (match store_get(old(self)@.store, rank_values_key@) {
                    Some(v) => v.array is F32s && v.scope is Neuron && v.shape.len() == 2,
                    None => false,
                }) && final(self)@ == (BuilderModel {
                    rank_key: Some(rank_values_key@),
                    ..old(self)@
                }),
                Err(e) => final(self)@ == old(self)@ && match e@ {
                    BuilderErrorModel::NotFound(name) => store_get(
                        old(self)@.store,
                        rank_values_key@,
                    ) is None && name == rank_values_key@,
                    BuilderErrorModel::TypeMismatch { value_name, required, found } => (
                    match store_get(old(self)@.store, rank_values_key@) {
                        Some(v) => v.data_type() != DataType::F32 && found == v.data_type(),
                        None => false,
                    }) && value_name == rank_values_key@ && required == DataType::F32,
                    BuilderErrorModel::ShapeMismatch { value_name, scope, shape } => (
                    match store_get(old(self)@.store, rank_values_key@) {
                        Some(v) => v.data_type() == DataType::F32 && !(v.scope is Neuron
                            && v.shape.len() == 2) && scope == v.scope && shape == v.shape,
                        None => false,
                    }) && value_name == rank_values_key@,
                    _ => false,
                },
            },
    {
        let v = match self.values.get(rank_values_key.as_str()) {
            Some(v) => v,
            None => {
                return Err(BuilderError::NotFound(rank_values_key));
            },
        };
        if v.data_type() != DataType::F32 {
            return Err(
                BuilderError::TypeMismatch {
                    value_name: rank_values_key,
                    required: DataType::F32,
                    found: v.data_type(),
                },
            );
        }
        let scope_ok = match v.scope() {
            Scope::Neuron => true,
            _ => false,
        };
        if !scope_ok || v.shape().len() != 2 {
            let shape = crate::value::copy_shape(v.shape());
            return Err(
                BuilderError::ShapeMismatch {
                    value_name: rank_values_key,
                    scope: v.scope(),
                    shape,
                },
            );
        }
        self.rank_values_key = Some(rank_values_key);
        Ok(())
    }

    /// Freezes the builder. Where a rank source was chosen, derives the
    /// `rank` and `ranked_neurons` tables from it and appends them to
    /// the store; then validates the template against the final store.
    /// Fails with `TemplateNotSet` where no template was attached, and
    /// with the first validation failure otherwise; a payload comes
    /// back only fully valid.
    pub fn build(self) -> (r: Result<Payload, BuilderError>)
        requires
            self@.wf(),
        ensures
            match r {
                Ok(p) => self@.template is Some && p@.num_layers == self@.num_layers
                    && p@.num_mlp_neurons == self@.num_mlp_neurons && p@.template
                    == self@.template->0 && built_store_ok(self@, p@.store)
                    && spec_validate_template(self@.template->0, p@.store) is None,
                Err(e) => match e@ {
                    BuilderErrorModel::TemplateNotSet => self@.template is None,
                    BuilderErrorModel::Argument(ae) => self@.template is Some && exists|
                        store: StoreModel,
                    |
                        #[trigger] built_store_ok(self@, store) && spec_validate_template(
                            self@.template->0,
                            store,
                        ) == Some(ae),
                    _ => false,
                },
            },
    {
        let ghost model = self@;
        let PayloadBuilder {
            num_layers,
            num_mlp_neurons,
            mlp_neuron_template,
            mut values,
            rank_values_key,
        } = self;
        let template = match mlp_neuron_template {
            Some(t) => t,
            None => {
                return Err(BuilderError::TemplateNotSet);
            },
        };
        if let Some(rank_key) = rank_values_key {
            let (ranks, ranked) = {
                let metric_value = values.get(rank_key.as_str()).unwrap();
                let metric = metric_value.as_f32().unwrap();
                proof {
                    let i = crate::values::lemma_store_get_index(model.store, rank_key@);
                    lemma_elem_product_pair(metric_value@.shape);
                    assert(metric@.len() == num_layers * num_mlp_neurons);
                }
                calculate_neuron_rankings(metric, num_layers, num_mlp_neurons)
            };
            let ghost metric_seq = store_get(model.store, rank_key@)->0.array->F32s_0;
            let mut shape: Vec<usize> = Vec::new();
            shape.push(num_layers);
            shape.push(num_mlp_neurons);
            let shape2 = crate::value::copy_shape(&shape);
            proof {
                assert(shape@ =~= seq![num_layers, num_mlp_neurons]);
                lemma_elem_product_pair(shape@);
            }
            let rank_value = Value::new(ValueArray::U32(ranks), shape, Scope::Neuron).unwrap();
            let ranked_value = Value::new(ValueArray::U32(ranked), shape2, Scope::Global).unwrap();
            let ghost store0 = values@;
            values.insert(copy_str("rank"), rank_value);
            let ghost store1 = values@;
            values.insert(copy_str("ranked_neurons"), ranked_value);
            proof {
                lemma_distinct_reserved_names();
                lemma_store_get_none(store0, "rank"@);
                lemma_store_get_none(store0, "ranked_neurons"@);
                lemma_store_get_push(store0, "ranked_neurons"@, store1[store0.len() as int]);
                lemma_store_get_none(store1, "ranked_neurons"@);
                assert(values@.take(store0.len() as int) =~= store0);
                assert forall|i: int, j: int|
                    0 <= i < j < values@.len() implies (#[trigger] values@[i].0) != (
                #[trigger] values@[j].0) by {
                    if j < store0.len() {
                    } else if j == store0.len() {
                        assert(values@[j].0 == "rank"@);
                        assert(values@[i] == store0[i]);
                    } else {
                        assert(values@[j].0 == "ranked_neurons"@);
                        if i < store0.len() {
                            assert(values@[i] == store0[i]);
                        }
                    }
                }
                assert(store_wf(values@));
                assert(built_store_ok(model, values@));
            }
            let ghost final_store = values@;
            match Payload::new(num_layers, num_mlp_neurons, template, values) {
                Ok(p) => Ok(p),
                Err(e) => {
                    proof {
                        assert(built_store_ok(model, final_store) && spec_validate_template(
                            model.template->0,
                            final_store,
                        ) == Some(e@));
                    }
                    Err(BuilderError::Argument(e))
                },
            }
        } else {
            let ghost final_store = values@;
            proof {
                assert(built_store_ok(model, final_store));
            }
            match Payload::new(num_layers, num_mlp_neurons, template, values) {
                Ok(p) => Ok(p),
                Err(e) => {
                    proof {
                        assert(built_store_ok(model, final_store) && spec_validate_template(
                            model.template->0,
                            final_store,
                        ) == Some(e@));
                    }
                    Err(BuilderError::Argument(e))
                },
            }
        }
    }
}

/// The two reserved names differ.
proof fn lemma_distinct_reserved_names()
    ensures
        "rank"@ != "ranked_neurons"@,
{
    reveal_strlit("rank");
    reveal_strlit("ranked_neurons");
    assert("rank"@.len() != "ranked_neurons"@.len());
}

/// Whether a value's leading axes match its scope against the given
/// dimensions.
pub(crate) fn dims_check(value: &Value, num_layers: usize, num_mlp_neurons: usize) -> (r: bool)
    ensures
        r == value@.dims_ok(num_layers, num_mlp_neurons),
{
    let shape = value.shape();
    match value.scope() {
        Scope::Global => true,
        Scope::Layer => shape.len() >= 1 && shape[0] == num_layers,
        Scope::Neuron => shape.len() >= 2 && shape[0] == num_layers && shape[1]
            == num_mlp_neurons,
    }
}

} // verus!
