//! Template element directives: parsing one directive's text, validating
//! its named arguments against a store, and evaluating it — resolving
//! and slicing its arguments — at a `(layer, neuron)` coordinate.

use vstd::prelude::*;
use vstd::string::StrSliceExecFns;

use crate::errors::{
    ArgumentError, ArgumentErrorModel, ArgumentErrorType, ArgumentErrorTypeModel, ParseError,
    ParseErrorModel,
};
use crate::text::{copy_str, find_char, lemma_find_characterization, spec_find, spec_trim, str_eq,
    trim};
use crate::value::{DataType, Value, ValueModel};
use crate::values::{store_dims_ok, store_get, store_scopes_consistent, store_wf, StoreModel, Values};

verus! {

/// Model of an [`Element`], argument names as character sequences.
#[verifier::ext_equal]
pub ghost enum ElementModel {
    Heatmap(Seq<char>),
    Value(Seq<char>),
    FocusSequences { activations: Seq<char>, step_names: Seq<char> },
}

/// One template directive: the element kind with its named arguments.
#[derive(Clone, Debug)]
pub enum Element {
    /// A two-axis `f32` table rendered as a heatmap.
    Heatmap(String),
    /// A single scalar of any element type.
    Value(String),
    /// A two-axis `f32` table of activations, with a same-shaped table
    /// of step names.
    FocusSequences { activations: String, step_names: String },
}

impl View for Element {
    type V = ElementModel;

    open spec fn view(&self) -> ElementModel {
        match self {
            Element::Heatmap(name) => ElementModel::Heatmap(name@),
            Element::Value(name) => ElementModel::Value(name@),
            Element::FocusSequences { activations, step_names } =>
                ElementModel::FocusSequences {
                activations: activations@,
                step_names: step_names@,
            },
        }
    }
}

/// The comma-separated pieces of a directive's argument text. Splitting
/// the empty text yields one empty piece, so every directive has at
/// least one (possibly empty) argument.
pub open spec fn spec_split_args(s: Seq<char>) -> Seq<Seq<char>>
    decreases s.len(),
{
    match spec_find(s, ',') {
        Some(p) => if 0 <= p < s.len() {
            seq![s.take(p)] + spec_split_args(s.skip(p + 1))
        } else {
            seq![s]
        },
        None => seq![s],
    }
}

/// The directive an element kind name and trimmed arguments denote, or
/// the parse error: unknown name, or wrong argument count for the kind.
pub open spec fn spec_element_from_parts(name: Seq<char>, args: Seq<Seq<char>>) -> Result<
    ElementModel,
    ParseErrorModel,
> {
    if name == "heatmap"@ {
        if args.len() == 1 {
            Ok(ElementModel::Heatmap(args[0]))
        } else {
            Err(ParseErrorModel::WrongArgumentCount {
                element_name: name,
                required: 1,
                found: args.len() as int,
            })
        }
    } else if name == "value"@ {
        if args.len() == 1 {
            Ok(ElementModel::Value(args[0]))
        } else {
            Err(ParseErrorModel::WrongArgumentCount {
                element_name: name,
                required: 1,
                found: args.len() as int,
            })
        }
    } else if name == "focus_sequences"@ {
        if args.len() == 2 {
            Ok(ElementModel::FocusSequences { activations: args[0], step_names: args[1] })
        } else {
            Err(ParseErrorModel::WrongArgumentCount {
                element_name: name,
                required: 2,
                found: args.len() as int,
            })
        }
    } else {
        Err(ParseErrorModel::UnknownElement(name))
    }
}

/// The comma-separated arguments of a directive, each trimmed.
pub open spec fn spec_trimmed_args(s: Seq<char>) -> Seq<Seq<char>> {
    Seq::new(spec_split_args(s).len(), |i: int| spec_trim(spec_split_args(s)[i]))
}

/// What parsing one directive's text yields: the text is trimmed, split
/// at its first `(` into kind name and argument text, the argument text
/// must close with `)`, and the arguments are split on commas and
/// trimmed.
pub open spec fn spec_parse_element(s: Seq<char>) -> Result<ElementModel, ParseErrorModel> {
    let t = spec_trim(s);
    match spec_find(t, '(') {
        None => Err(ParseErrorModel::Unterminated),
        Some(p) => if 0 <= p < t.len() {
            let name = t.take(p);
            let rest = t.skip(p + 1);
            if rest.len() == 0 || rest.last() != ')' {
                Err(ParseErrorModel::Unterminated)
            } else {
                spec_element_from_parts(name, spec_trimmed_args(rest.drop_last()))
            }
        } else {
            Err(ParseErrorModel::Unterminated)
        },
    }
}

/// Splits a directive's argument text on commas and trims each piece.
#[verifier::loop_isolation(false)]
fn split_and_trim(s: &str) -> (r: Vec<String>)
    ensures
        r.deep_view() == spec_trimmed_args(s@),
    decreases s@.len(),
{
    proof {
        lemma_find_characterization(s@, ',');
    }
    let mut r: Vec<String> = Vec::new();
    match find_char(s, ',') {
        Some(p) => {
            let len = s.unicode_len();
            let head = trim(s.substring_char(0, p));
            r.push(copy_str(head));
            let sub = s.substring_char(p + 1, len);
            let mut tail = split_and_trim(sub);
            let ghost tail_view = tail.deep_view();
            let ghost old_tail = tail@;
            r.append(&mut tail);
            proof {
                let skip = s@.skip(p as int + 1);
                assert(sub@ == skip);
                assert(spec_split_args(s@) == seq![s@.take(p as int)] + spec_split_args(skip));
                assert(tail_view == spec_trimmed_args(skip));
                assert(r@.len() == 1 + old_tail.len());
                assert(r.deep_view().len() == r@.len());
                assert(tail_view.len() == old_tail.len());
                assert(spec_trimmed_args(skip).len() == spec_split_args(skip).len());
                assert(spec_trimmed_args(s@).len() == spec_split_args(s@).len());
                assert(spec_split_args(s@).len() == 1 + spec_split_args(skip).len());
                assert(r.deep_view().len() == spec_trimmed_args(s@).len());
                assert forall|i: int|
                    0 <= i < r.deep_view().len() implies r.deep_view()[i] == spec_trimmed_args(
                    s@,
                )[i] by {
                    assert(spec_trimmed_args(s@)[i] == spec_trim(spec_split_args(s@)[i]));
                    if i == 0 {
                        assert(spec_split_args(s@)[0] == s@.take(p as int));
                        assert(r@[0]@ == spec_trim(s@.take(p as int)));
                    } else {
                        assert(r@[i] == old_tail[i - 1]);
                        assert(r.deep_view()[i] == old_tail[i - 1]@);
                        assert(tail_view[i - 1] == old_tail[i - 1]@);
                        assert(tail_view[i - 1] == spec_trim(spec_split_args(skip)[i - 1]));
                        assert(spec_split_args(s@)[i] == spec_split_args(skip)[i - 1]);
                    }
                }
                assert(r.deep_view() =~= spec_trimmed_args(s@));
            }
        },
        None => {
            let head = trim(s);
            r.push(copy_str(head));
            proof {
                assert(r.deep_view() =~= spec_trimmed_args(s@));
            }
        },
    }
    r
}

impl Element {
    /// Parses one directive's text, `identifier(arg, arg, ...)` with
    /// optional surrounding whitespace, into an element.
    pub fn parse(text: &str) -> (r: Result<Element, ParseError>)
        ensures
            match r {
                Ok(el) => spec_parse_element(text@) == Ok::<ElementModel, ParseErrorModel>(el@),
                Err(e) => spec_parse_element(text@) == Err::<ElementModel, ParseErrorModel>(e@),
            },
    {
        let t = trim(text);
        proof {
            lemma_find_characterization(t@, '(');
        }
        let p = match find_char(t, '(') {
            Some(p) => p,
            None => {
                return Err(ParseError::Unterminated);
            },
        };
        let tlen = t.unicode_len();
        let name = t.substring_char(0, p);
        let rest = t.substring_char(p + 1, tlen);
        let restlen = tlen - (p + 1);
        if restlen == 0 || rest.get_char(restlen - 1) != ')' {
            return Err(ParseError::Unterminated);
        }
        let inner = rest.substring_char(0, restlen - 1);
        proof {
            assert(inner@ =~= t@.skip(p as int + 1).drop_last());
        }
        let mut args = split_and_trim(inner);
        let found = args.len();
        if str_eq(name, "heatmap") {
            if found == 1 {
                let arg = args.remove(0);
                Ok(Element::Heatmap(arg))
            } else {
                Err(ParseError::WrongArgumentCount {
                    element_name: copy_str(name),
                    required: 1,
                    found,
                })
            }
        } else if str_eq(name, "value") {
            if found == 1 {
                let arg = args.remove(0);
                Ok(Element::Value(arg))
            } else {
                Err(ParseError::WrongArgumentCount {
                    element_name: copy_str(name),
                    required: 1,
                    found,
                })
            }
        } else if str_eq(name, "focus_sequences") {
            if found == 2 {
                let activations = args.remove(0);
                let step_names = args.remove(0);
                Ok(Element::FocusSequences { activations, step_names })
            } else {
                Err(ParseError::WrongArgumentCount {
                    element_name: copy_str(name),
                    required: 2,
                    found,
                })
            }
        } else {
            Err(ParseError::UnknownElement(copy_str(name)))
        }
    }
}

/// Note attached to the shape-equality failure of `focus_sequences`.
pub open spec fn spec_focus_shape_note() -> Seq<char> {
    "the two arguments of focus_sequences must have equal shapes after each one's index axes are removed"@
}

/// Validation of a single table argument (a heatmap, or the activations
/// of a focus-sequences element): it must exist, keep exactly two axes
/// after its scope's index axes, and hold `f32` data.
pub open spec fn spec_validate_table_arg(name: Seq<char>, store: StoreModel) -> Option<
    ArgumentErrorModel,
> {
    match store_get(store, name) {
        None => Some(
            ArgumentErrorModel {
                error_type: ArgumentErrorTypeModel::MissingValue(name),
                value_name: name,
            },
        ),
        Some(v) => if v.remaining_axis_count() != 2 {
            Some(
                ArgumentErrorModel {
                    error_type: ArgumentErrorTypeModel::AxisNum {
                        required_axis_num: 2,
                        found_axis_num: v.remaining_axis_count(),
                    },
                    value_name: name,
                },
            )
        } else if v.data_type() != DataType::F32 {
            Some(
                ArgumentErrorModel {
                    error_type: ArgumentErrorTypeModel::DataType {
                        required_data_type: DataType::F32,
                        found_data_type: v.data_type(),
                    },
                    value_name: name,
                },
            )
        } else {
            None
        },
    }
}

/// The validation protocol, run once at payload construction: what each
/// element requires of the store, and the first failure it reports.
/// `None` means the element's arguments resolve and have the shapes and
/// types its renderer needs.
pub open spec fn spec_validate_element(el: ElementModel, store: StoreModel) -> Option<
    ArgumentErrorModel,
> {
    match el {
        ElementModel::Heatmap(name) => spec_validate_table_arg(name, store),
        ElementModel::Value(name) => match store_get(store, name) {
            None => Some(
                ArgumentErrorModel {
                    error_type: ArgumentErrorTypeModel::MissingValue(name),
                    value_name: name,
                },
            ),
            Some(v) => if v.remaining_axis_count() != 0 {
                Some(
                    ArgumentErrorModel {
                        error_type: ArgumentErrorTypeModel::AxisNum {
                            required_axis_num: 0,
                            found_axis_num: v.remaining_axis_count(),
                        },
                        value_name: name,
                    },
                )
            } else {
                None
            },
        },
        ElementModel::FocusSequences { activations, step_names } => match spec_validate_table_arg(
            activations,
            store,
        ) {
            Some(e) => Some(e),
            None => {
                let act = store_get(store, activations)->0;
                match store_get(store, step_names) {
                    None => Some(
                        ArgumentErrorModel {
                            error_type: ArgumentErrorTypeModel::MissingValue(step_names),
                            value_name: step_names,
                        },
                    ),
                    Some(sn) => if sn.remaining_axis_count() != 2 {
                        Some(
                            ArgumentErrorModel {
                                error_type: ArgumentErrorTypeModel::AxisNum {
                                    required_axis_num: 2,
                                    found_axis_num: sn.remaining_axis_count(),
                                },
                                value_name: step_names,
                            },
                        )
                    } else if sn.remaining_shape() != act.remaining_shape() {
                        Some(
                            ArgumentErrorModel {
                                error_type: ArgumentErrorTypeModel::Other(spec_focus_shape_note()),
                                value_name: step_names,
                            },
                        )
                    } else if sn.data_type() != DataType::String {
                        Some(
                            ArgumentErrorModel {
                                error_type: ArgumentErrorTypeModel::DataType {
                                    required_data_type: DataType::String,
                                    found_data_type: sn.data_type(),
                                },
                                value_name: step_names,
                            },
                        )
                    } else {
                        None
                    },
                }
            },
        },
    }
}

/// Resolves one name in the store, for validation: the value, or the
/// missing-value error.
fn resolve_arg<'a>(values: &'a Values, name: &String) -> (r: Result<&'a Value, ArgumentError>)
    ensures
        match r {
            Ok(v) => store_get(values@, name@) == Some(v@),
            Err(e) => store_get(values@, name@) is None && e@ == (ArgumentErrorModel {
                error_type: ArgumentErrorTypeModel::MissingValue(name@),
                value_name: name@,
            }),
        },
{
    match values.get(name.as_str()) {
        Some(v) => Ok(v),
        None => Err(
            ArgumentError {
                error_type: ArgumentErrorType::MissingValue(name.clone()),
                value_name: name.clone(),
            },
        ),
    }
}

/// The number of axes a stored value keeps after its scope's index
/// axes.
fn remaining_axes_of(values: &Values, v: &Value, name: &String) -> (r: usize)
    requires
        store_scopes_consistent(values@),
        store_get(values@, name@) == Some(v@),
    ensures
        r == v@.remaining_axis_count(),
{
    proof {
        let i = crate::values::lemma_store_get_index(values@, name@);
    }
    v.shape().len() - v.scope().index_axis_count()
}

/// Validates one table argument against the store; see
/// [`spec_validate_table_arg`].
fn validate_table_arg<'a>(values: &'a Values, name: &String) -> (r: Result<&'a Value, ArgumentError>)
    requires
        store_scopes_consistent(values@),
    ensures
        match r {
            Ok(v) => spec_validate_table_arg(name@, values@) is None && store_get(values@, name@)
                == Some(v@),
            Err(e) => spec_validate_table_arg(name@, values@) == Some(e@),
        },
{
    let v = match resolve_arg(values, name) {
        Ok(v) => v,
        Err(e) => {
            return Err(e);
        },
    };
    let rem = remaining_axes_of(values, v, name);
    if rem != 2 {
        Err(
            ArgumentError {
                error_type: ArgumentErrorType::AxisNum {
                    required_axis_num: 2,
                    found_axis_num: rem,
                },
                value_name: name.clone(),
            },
        )
    } else if v.data_type() != DataType::F32 {
        Err(
            ArgumentError {
                error_type: ArgumentErrorType::DataType {
                    required_data_type: DataType::F32,
                    found_data_type: v.data_type(),
                },
                value_name: name.clone(),
            },
        )
    } else {
        Ok(v)
    }
}

/// Validates one element's arguments against a store; see
/// [`spec_validate_element`].
pub(crate) fn validate_element_against(el: &Element, values: &Values) -> (r: Result<
    (),
    ArgumentError,
>)
    requires
        store_scopes_consistent(values@),
    ensures
        match r {
            Ok(()) => spec_validate_element(el@, values@) is None,
            Err(e) => spec_validate_element(el@, values@) == Some(e@),
        },
{
    match el {
        Element::Heatmap(name) => {
            match validate_table_arg(values, name) {
                Ok(_) => Ok(()),
                Err(e) => Err(e),
            }
        },
        Element::Value(name) => {
            let v = match resolve_arg(values, name) {
                Ok(v) => v,
                Err(e) => {
                    return Err(e);
                },
            };
            let rem = remaining_axes_of(values, v, name);
            if rem != 0 {
                Err(
                    ArgumentError {
                        error_type: ArgumentErrorType::AxisNum {
                            required_axis_num: 0,
                            found_axis_num: rem,
                        },
                        value_name: name.clone(),
                    },
                )
            } else {
                Ok(())
            }
        },
        Element::FocusSequences { activations, step_names } => {
            let act = match validate_table_arg(values, activations) {
                Ok(v) => v,
                Err(e) => {
                    return Err(e);
                },
            };
            let sn = match resolve_arg(values, step_names) {
                Ok(v) => v,
                Err(e) => {
                    return Err(e);
                },
            };
            let sn_rem = remaining_axes_of(values, sn, step_names);
            if sn_rem != 2 {
                return Err(
                    ArgumentError {
                        error_type: ArgumentErrorType::AxisNum {
                            required_axis_num: 2,
                            found_axis_num: sn_rem,
                        },
                        value_name: step_names.clone(),
                    },
                );
            }
            let act_axes = act.scope().index_axis_count();
            let sn_axes = sn.scope().index_axis_count();
            let shapes_equal = shape_suffix_eq(act.shape(), act_axes, sn.shape(), sn_axes);
            proof {
                assert(act@.shape.skip(act_axes as int) == act@.remaining_shape());
                assert(sn@.shape.skip(sn_axes as int) == sn@.remaining_shape());
            }
            if !shapes_equal {
                return Err(
                    ArgumentError {
                        error_type: ArgumentErrorType::Other(focus_shape_note()),
                        value_name: step_names.clone(),
                    },
                );
            }
            if sn.data_type() != DataType::String {
                return Err(
                    ArgumentError {
                        error_type: ArgumentErrorType::DataType {
                            required_data_type: DataType::String,
                            found_data_type: sn.data_type(),
                        },
                        value_name: step_names.clone(),
                    },
                );
            }
            Ok(())
        },
    }
}

/// The note [`spec_focus_shape_note`] as an owned string.
fn focus_shape_note() -> (r: String)
    ensures
        r@ == spec_focus_shape_note(),
{
    copy_str(
        "the two arguments of focus_sequences must have equal shapes after each one's index axes are removed",
    )
}

/// Whether two shapes agree after dropping a prefix of each.
#[verifier::loop_isolation(false)]
fn shape_suffix_eq(a: &Vec<usize>, a_from: usize, b: &Vec<usize>, b_from: usize) -> (r: bool)
    requires
        a_from <= a@.len(),
        b_from <= b@.len(),
    ensures
        r == (a@.skip(a_from as int) == b@.skip(b_from as int)),
{
    let a_len = a.len() - a_from;
    let b_len = b.len() - b_from;
    if a_len != b_len {
        proof {
            assert(a@.skip(a_from as int).len() != b@.skip(b_from as int).len());
        }
        return false;
    }
    let mut i: usize = 0;
    while i < a_len
        invariant
            0 <= i <= a_len,
            a_len == a@.len() - a_from,
            b_len == b@.len() - b_from,
            a_len == b_len,
            a_from <= a@.len(),
            b_from <= b@.len(),
            forall|j: int| 0 <= j < i ==> #[trigger] a@[a_from + j] == b@[b_from + j],
        decreases a_len - i,
    {
        if a[a_from + i] != b[b_from + i] {
            proof {
                assert(a@.skip(a_from as int)[i as int] != b@.skip(b_from as int)[i as int]);
            }
            return false;
        }
        i = i + 1;
    }
    proof {
        assert forall|j: int|
            0 <= j < a@.skip(a_from as int).len() implies a@.skip(a_from as int)[j] == b@.skip(
            b_from as int,
        )[j] by {
            assert(a@[a_from + j] == b@[b_from + j]);
        }
        assert(a@.skip(a_from as int) =~= b@.skip(b_from as int));
    }
    true
}

/// Model of [`ElementData`].
#[verifier::ext_equal]
pub ghost enum ElementDataModel {
    Heatmap(ValueModel),
    Value(ValueModel),
    FocusSequences { activations: ValueModel, step_names: ValueModel },
}

/// The data an element renderer receives at one `(layer, neuron)`
/// coordinate: the validated, correctly sliced view of each argument.
/// Every slice is a complete array of its own (scope Global), with the
/// argument's remaining axes as its shape.
#[derive(Clone, Debug)]
pub enum ElementData {
    /// The two-axis `f32` table of a heatmap element.
    Heatmap(Value),
    /// The zero-axis scalar of a value element, of any element type.
    Value(Value),
    /// The two equal-shaped tables of a focus-sequences element.
    FocusSequences { activations: Value, step_names: Value },
}

impl View for ElementData {
    type V = ElementDataModel;

    open spec fn view(&self) -> ElementDataModel {
        match self {
            ElementData::Heatmap(v) => ElementDataModel::Heatmap(v@),
            ElementData::Value(v) => ElementDataModel::Value(v@),
            ElementData::FocusSequences { activations, step_names } =>
                ElementDataModel::FocusSequences {
                activations: activations@,
                step_names: step_names@,
            },
        }
    }
}

/// What evaluating an element at `(layer, neuron)` hands the renderer:
/// each named argument resolved in the store and sliced by its own
/// scope's rule at that coordinate.
pub open spec fn spec_element_data(
    el: ElementModel,
    store: StoreModel,
    layer: int,
    neuron: int,
) -> ElementDataModel {
    match el {
        ElementModel::Heatmap(name) => ElementDataModel::Heatmap(
            store_get(store, name)->0.spec_slice(layer, neuron),
        ),
        ElementModel::Value(name) => ElementDataModel::Value(
            store_get(store, name)->0.spec_slice(layer, neuron),
        ),
        ElementModel::FocusSequences { activations, step_names } =>
            ElementDataModel::FocusSequences {
            activations: store_get(store, activations)->0.spec_slice(layer, neuron),
            step_names: store_get(store, step_names)->0.spec_slice(layer, neuron),
        },
    }
}

/// Evaluates one validated element at a coordinate: resolves each named
/// argument and slices it by its own scope's rule.
pub(crate) fn generate_element(
    el: &Element,
    values: &Values,
    num_layers: usize,
    num_mlp_neurons: usize,
    layer_index: usize,
    neuron_index: usize,
) -> (r: ElementData)
    requires
        store_wf(values@),
        store_dims_ok(values@, num_layers, num_mlp_neurons),
        spec_validate_element(el@, values@) is None,
        layer_index < num_layers,
        neuron_index < num_mlp_neurons,
    ensures
        r@ == spec_element_data(el@, values@, layer_index as int, neuron_index as int),
{
    match el {
        Element::Heatmap(name) => {
            let v = values.get(name.as_str()).unwrap();
            proof {
                lemma_stored_value_sliceable(values@, name@, num_layers, num_mlp_neurons);
            }
            ElementData::Heatmap(v.slice_at(layer_index, neuron_index))
        },
        Element::Value(name) => {
            let v = values.get(name.as_str()).unwrap();
            proof {
                lemma_stored_value_sliceable(values@, name@, num_layers, num_mlp_neurons);
            }
            ElementData::Value(v.slice_at(layer_index, neuron_index))
        },
        Element::FocusSequences { activations, step_names } => {
            let act = values.get(activations.as_str()).unwrap();
            let sn = values.get(step_names.as_str()).unwrap();
            proof {
                lemma_stored_value_sliceable(values@, activations@, num_layers, num_mlp_neurons);
                lemma_stored_value_sliceable(values@, step_names@, num_layers, num_mlp_neurons);
            }
            ElementData::FocusSequences {
                activations: act.slice_at(layer_index, neuron_index),
                step_names: sn.slice_at(layer_index, neuron_index),
            }
        },
    }
}

/// A value resolved in a store whose entries are well-formed and agree
/// with the dimensions can be sliced at any in-range coordinate.
proof fn lemma_stored_value_sliceable(
    s: StoreModel,
    name: Seq<char>,
    num_layers: usize,
    num_mlp_neurons: usize,
)
    requires
        store_wf(s),
        store_dims_ok(s, num_layers, num_mlp_neurons),
        store_get(s, name) is Some,
    ensures
        store_get(s, name)->0.wf(),
        forall|l: int, n: int|
            0 <= l < num_layers && 0 <= n < num_mlp_neurons ==> store_get(
                s,
                name,
            )->0.in_bounds_at(l, n),
{
    let i = crate::values::lemma_store_get_index(s, name);
}

} // verus!
