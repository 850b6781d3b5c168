//! A single named dataset: an N-dimensional homogeneous array of strings,
//! `u32` values or `f32` values (carried as their IEEE 754 bit patterns),
//! tagged with the granularity ("scope") at which it varies.
//!
//! Arrays are stored flat in row-major order next to their shape; the
//! scope determines how many leading axes are index axes consumed by a
//! coordinate lookup: none for [`Scope::Global`], the layer axis for
//! [`Scope::Layer`], the layer and neuron axes for [`Scope::Neuron`].

use vstd::prelude::*;

verus! {

/// Granularity at which a value varies: one value for the whole model,
/// one per layer, or one per (layer, neuron) pair.
#[derive(Clone, Copy, Debug, PartialEq, Eq, Structural)]
pub enum Scope {
    Global,
    Layer,
    Neuron,
}

/// Element type of a [`Value`]'s array.
#[derive(Clone, Copy, Debug, PartialEq, Eq, Structural)]
pub enum DataType {
    String,
    U32,
    F32,
}

impl Scope {
    /// How many leading axes of an array with this scope are index axes.
    pub open spec fn spec_index_axis_count(self) -> nat {
        match self {
            Scope::Global => 0,
            Scope::Layer => 1,
            Scope::Neuron => 2,
        }
    }

    /// Executable form of [`Scope::spec_index_axis_count`].
    pub fn index_axis_count(&self) -> (n: usize)
        ensures
            n == self.spec_index_axis_count(),
    {
        match self {
            Scope::Global => 0,
            Scope::Layer => 1,
            Scope::Neuron => 2,
        }
    }
}

/// The number of elements of an array with the given shape: the product
/// of all axis lengths (1 for a zero-dimensional array).
pub open spec fn elem_product(shape: Seq<usize>) -> nat
    decreases shape.len(),
{
    if shape.len() == 0 {
        1
    } else {
        (shape[0] * elem_product(shape.drop_first())) as nat
    }
}

/// The element count of a shape splits multiplicatively at any axis.
pub proof fn lemma_elem_product_split(shape: Seq<usize>, i: int)
    requires
        0 <= i <= shape.len(),
    ensures
        elem_product(shape) == elem_product(shape.take(i)) * elem_product(shape.skip(i)),
    decreases i,
{
    if i == 0 {
        assert(shape.take(0) =~= Seq::<usize>::empty());
        assert(shape.skip(0) =~= shape);
        assert(elem_product(shape) == elem_product(shape.take(0)) * elem_product(shape.skip(0)))
            by (nonlinear_arith)
            requires
                elem_product(shape.take(0)) == 1,
                elem_product(shape.skip(0)) == elem_product(shape),
        ;
    } else {
        let rest = shape.drop_first();
        lemma_elem_product_split(rest, i - 1);
        assert(shape.take(i).drop_first() =~= rest.take(i - 1));
        assert(shape.skip(i) =~= rest.skip(i - 1));
        assert(elem_product(shape) == elem_product(shape.take(i)) * elem_product(shape.skip(i)))
            by (nonlinear_arith)
            requires
                elem_product(shape) == (shape[0] * elem_product(rest)) as nat,
                elem_product(rest) == elem_product(rest.take(i - 1)) * elem_product(
                    rest.skip(i - 1),
                ),
                elem_product(shape.take(i)) == (shape[0] * elem_product(rest.take(i - 1))) as nat,
                elem_product(shape.skip(i)) == elem_product(rest.skip(i - 1)),
        ;
    }
}

/// A shape with a zero axis has no elements.
pub proof fn lemma_elem_product_zero(shape: Seq<usize>, i: int)
    requires
        0 <= i < shape.len(),
        shape[i] == 0,
    ensures
        elem_product(shape) == 0,
    decreases i,
{
    if i == 0 {
        assert(elem_product(shape) == 0) by (nonlinear_arith)
            requires
                elem_product(shape) == (shape[0] * elem_product(shape.drop_first())) as nat,
                shape[0] == 0,
        ;
    } else {
        lemma_elem_product_zero(shape.drop_first(), i - 1);
        assert(elem_product(shape) == 0) by (nonlinear_arith)
            requires
                elem_product(shape) == (shape[0] * elem_product(shape.drop_first())) as nat,
                elem_product(shape.drop_first()) == 0,
        ;
    }
}

/// With every axis positive, the element count only grows as axes are added.
pub proof fn lemma_elem_product_lower_bound(shape: Seq<usize>, i: int)
    requires
        0 <= i <= shape.len(),
        forall|j: int| 0 <= j < shape.len() ==> shape[j] >= 1,
    ensures
        elem_product(shape) >= elem_product(shape.take(i)),
        elem_product(shape) >= 1,
    decreases shape.len(),
{
    if shape.len() == 0 {
        assert(shape.take(i) =~= shape);
    } else {
        let rest = shape.drop_first();
        assert(forall|j: int| 0 <= j < rest.len() ==> rest[j] >= 1);
        lemma_elem_product_lower_bound(rest, if i == 0 { 0 } else { i - 1 });
        if i == 0 {
            assert(elem_product(shape.take(0)) == 1);
            assert(shape[0] * elem_product(rest) >= 1) by (nonlinear_arith)
                requires
                    shape[0] >= 1,
                    elem_product(rest) >= 1,
            ;
        } else {
            assert(shape.take(i).drop_first() =~= rest.take(i - 1));
            assert(elem_product(shape.take(i)) == shape[0] * elem_product(rest.take(i - 1)));
            assert(shape[0] * elem_product(rest) >= shape[0] * elem_product(rest.take(i - 1)))
                by (nonlinear_arith)
                requires
                    shape[0] >= 1,
                    elem_product(rest) >= elem_product(rest.take(i - 1)),
            ;
            assert(shape[0] * elem_product(rest) >= 1) by (nonlinear_arith)
                requires
                    shape[0] >= 1,
                    elem_product(rest) >= 1,
            ;
        }
    }
}

/// Computes the element count of a shape, or `None` where it exceeds
/// `usize::MAX` (in which case no flat array of that shape can exist).
pub fn checked_elem_product(shape: &Vec<usize>) -> (r: Option<usize>)
    ensures
        match r {
            Some(n) => n == elem_product(shape@),
            None => elem_product(shape@) > usize::MAX,
        },
{
    let n = shape.len();
    let mut i: usize = 0;
    while i < n
        invariant
            0 <= i <= n,
            n == shape@.len(),
            forall|j: int| 0 <= j < i ==> shape@[j] >= 1,
        decreases n - i,
    {
        if shape[i] == 0 {
            proof {
                lemma_elem_product_zero(shape@, i as int);
            }
            return Some(0);
        }
        i = i + 1;
    }
    let mut acc: usize = 1;
    let mut i: usize = 0;
    while i < n
        invariant
            0 <= i <= n,
            n == shape@.len(),
            forall|j: int| 0 <= j < n ==> shape@[j] >= 1,
            acc == elem_product(shape@.take(i as int)),
        decreases n - i,
    {
        proof {
            assert(shape@.take(i + 1).drop_last() =~= shape@.take(i as int));
            assert(shape@.take(i + 1).last() == shape@[i as int]);
            lemma_elem_product_take_push(shape@, i as int);
        }
        acc = match acc.checked_mul(shape[i]) {
            Some(next) => next,
            None => {
                proof {
                    lemma_elem_product_lower_bound(shape@, i + 1);
                }
                return None;
            },
        };
        i = i + 1;
    }
    proof {
        assert(shape@.take(n as int) =~= shape@);
    }
    Some(acc)
}

/// Extending a shape prefix by one axis multiplies its element count by
/// that axis length.
pub proof fn lemma_elem_product_take_push(shape: Seq<usize>, i: int)
    requires
        0 <= i < shape.len(),
    ensures
        elem_product(shape.take(i + 1)) == elem_product(shape.take(i)) * shape[i],
{
    lemma_elem_product_split(shape.take(i + 1), i);
    let sing = shape.take(i + 1).skip(i);
    assert(shape.take(i + 1).take(i) =~= shape.take(i));
    assert(sing.len() == 1 && sing[0] == shape[i]);
    assert(sing.drop_first() =~= Seq::<usize>::empty());
    assert(elem_product(sing.drop_first()) == 1);
    assert(elem_product(shape.take(i + 1)) == elem_product(shape.take(i)) * shape[i])
        by (nonlinear_arith)
        requires
            elem_product(shape.take(i + 1)) == elem_product(shape.take(i)) * elem_product(sing),
            elem_product(sing) == (sing[0] * elem_product(sing.drop_first())) as nat,
            elem_product(sing.drop_first()) == 1,
            sing[0] == shape[i],
    ;
}

/// A one-axis shape has as many elements as that axis is long.
pub proof fn lemma_elem_product_singleton(shape: Seq<usize>)
    requires
        shape.len() == 1,
    ensures
        elem_product(shape) == shape[0],
{
    assert(shape.drop_first() =~= Seq::<usize>::empty());
    assert(elem_product(shape.drop_first()) == 1);
    assert(elem_product(shape) == shape[0]) by (nonlinear_arith)
        requires
            elem_product(shape) == (shape[0] * elem_product(shape.drop_first())) as nat,
            elem_product(shape.drop_first()) == 1,
    ;
}

/// Mathematical model of an array's contents: one sequence per element
/// type, with strings abstracted to their character sequences.
#[verifier::ext_equal]
pub ghost enum ArrayModel {
    Strings(Seq<Seq<char>>),
    U32s(Seq<u32>),
    F32s(Seq<u32>),
}

impl ArrayModel {
    /// Number of elements.
    pub open spec fn len(self) -> nat {
        match self {
            ArrayModel::Strings(s) => s.len(),
            ArrayModel::U32s(s) => s.len(),
            ArrayModel::F32s(s) => s.len(),
        }
    }

    /// Element type of the array.
    pub open spec fn data_type(self) -> DataType {
        match self {
            ArrayModel::Strings(_) => DataType::String,
            ArrayModel::U32s(_) => DataType::U32,
            ArrayModel::F32s(_) => DataType::F32,
        }
    }

    /// The contiguous run of elements from `start` (inclusive) to `end`
    /// (exclusive), of the same element type.
    pub open spec fn subrange(self, start: int, end: int) -> ArrayModel {
        match self {
            ArrayModel::Strings(s) => ArrayModel::Strings(s.subrange(start, end)),
            ArrayModel::U32s(s) => ArrayModel::U32s(s.subrange(start, end)),
            ArrayModel::F32s(s) => ArrayModel::F32s(s.subrange(start, end)),
        }
    }
}

/// Mathematical model of a [`Value`]: its shape, its flat row-major
/// contents, and its scope.
#[verifier::ext_equal]
pub ghost struct ValueModel {
    pub shape: Seq<usize>,
    pub array: ArrayModel,
    pub scope: Scope,
}

impl ValueModel {
    /// The flat array holds exactly one element per multi-index of the shape.
    pub open spec fn wf(self) -> bool {
        self.array.len() == elem_product(self.shape)
    }

    /// Element type of the value.
    pub open spec fn data_type(self) -> DataType {
        self.array.data_type()
    }

    /// Number of axes left after the scope's index axes are consumed,
    /// negative where the shape has fewer axes than the scope requires.
    pub open spec fn remaining_axis_count(self) -> int {
        self.shape.len() - self.scope.spec_index_axis_count()
    }

    /// The axes left after the scope's index axes are consumed.
    pub open spec fn remaining_shape(self) -> Seq<usize> {
        self.shape.skip(self.scope.spec_index_axis_count() as int)
    }

    /// The value's index axes exist and agree with the model dimensions:
    /// a Layer value's first axis has length `num_layers`, a Neuron
    /// value's first two have lengths `num_layers` and `num_mlp_neurons`.
    pub open spec fn dims_ok(self, num_layers: usize, num_mlp_neurons: usize) -> bool {
        match self.scope {
            Scope::Global => true,
            Scope::Layer => self.shape.len() >= 1 && self.shape[0] == num_layers,
            Scope::Neuron => self.shape.len() >= 2 && self.shape[0] == num_layers
                && self.shape[1] == num_mlp_neurons,
        }
    }

    /// The coordinate lies within the value's index axes.
    pub open spec fn in_bounds_at(self, layer: int, neuron: int) -> bool {
        match self.scope {
            Scope::Global => true,
            Scope::Layer => self.shape.len() >= 1 && 0 <= layer < self.shape[0],
            Scope::Neuron => self.shape.len() >= 2 && 0 <= layer < self.shape[0] && 0 <= neuron
                < self.shape[1],
        }
    }

    /// Position of the first element of the sub-array selected by the
    /// scope rule at `(layer, neuron)`.
    pub open spec fn slice_offset(self, layer: int, neuron: int) -> int {
        match self.scope {
            Scope::Global => 0,
            Scope::Layer => layer * elem_product(self.shape.skip(1)),
            Scope::Neuron => (layer * self.shape[1] + neuron) * elem_product(self.shape.skip(2)),
        }
    }

    /// The sub-array at `(layer, neuron)` under the scope rule: the index
    /// axes are consumed and the remaining axes are kept whole. The result
    /// is a complete array of its own, so its scope is Global.
    pub open spec fn spec_slice(self, layer: int, neuron: int) -> ValueModel {
        let offset = self.slice_offset(layer, neuron);
        let rest = elem_product(self.remaining_shape());
        ValueModel {
            shape: self.remaining_shape(),
            array: self.array.subrange(offset, offset + rest),
            scope: Scope::Global,
        }
    }
}

/// Flat row-major storage for an N-dimensional array, one variant per
/// element type. `f32` elements are carried as their IEEE 754 bit
/// patterns, which keeps every operation on them exact.
#[derive(Clone, Debug)]
pub enum ValueArray {
    String(Vec<String>),
    U32(Vec<u32>),
    F32(Vec<u32>),
}

impl View for ValueArray {
    type V = ArrayModel;

    open spec fn view(&self) -> ArrayModel {
        match self {
            ValueArray::String(v) => ArrayModel::Strings(v.deep_view()),
            ValueArray::U32(v) => ArrayModel::U32s(v@),
            ValueArray::F32(v) => ArrayModel::F32s(v@),
        }
    }
}

impl ValueArray {
    /// Number of elements stored.
    pub fn len(&self) -> (n: usize)
        ensures
            n == self@.len(),
    {
        match self {
            ValueArray::String(v) => v.len(),
            ValueArray::U32(v) => v.len(),
            ValueArray::F32(v) => v.len(),
        }
    }

    /// Element type of the stored data.
    pub fn data_type(&self) -> (t: DataType)
        ensures
            t == self@.data_type(),
    {
        match self {
            ValueArray::String(_) => DataType::String,
            ValueArray::U32(_) => DataType::U32,
            ValueArray::F32(_) => DataType::F32,
        }
    }
}

/// A single named dataset: a flat row-major array with its shape and the
/// scope at which it varies.
#[derive(Clone, Debug)]
pub struct Value {
    shape: Vec<usize>,
    array: ValueArray,
    scope: Scope,
}

/// Borrowed access to a [`Value`]'s flat contents, one variant per
/// element type.
pub enum ValueView<'a> {
    String(&'a Vec<String>),
    U32(&'a Vec<u32>),
    F32(&'a Vec<u32>),
}

impl View for Value {
    type V = ValueModel;

    closed spec fn view(&self) -> ValueModel {
        ValueModel { shape: self.shape@, array: self.array@, scope: self.scope }
    }
}

impl Value {
    /// Wraps a flat array and its shape into a value of the given scope.
    /// Returns `None` exactly where the array's length is not the shape's
    /// element count, so every value that exists is well-formed.
    pub fn new(array: ValueArray, shape: Vec<usize>, scope: Scope) -> (r: Option<Value>)
        ensures
            match r {
                Some(v) => v@.shape == shape@ && v@.array == array@ && v@.scope == scope
                    && v@.wf(),
                None => array@.len() != elem_product(shape@),
            },
    {
        let stored = array.len();
        match checked_elem_product(&shape) {
            Some(n) => {
                if stored == n {
                    Some(Value { shape, array, scope })
                } else {
                    None
                }
            },
            None => None,
        }
    }

    /// Element type of the value's array.
    pub fn data_type(&self) -> (t: DataType)
        ensures
            t == self@.data_type(),
    {
        self.array.data_type()
    }

    /// The scope the value was declared with.
    pub fn scope(&self) -> (s: Scope)
        ensures
            s == self@.scope,
    {
        self.scope
    }

    /// The full shape, index axes included.
    pub fn shape(&self) -> (s: &Vec<usize>)
        ensures
            s@ == self@.shape,
    {
        &self.shape
    }

    /// The flat storage itself, for the snapshot codec.
    pub(crate) fn array(&self) -> (r: &ValueArray)
        ensures
            r@ == self@.array,
    {
        &self.array
    }

    /// Borrowed view of the flat contents.
    pub fn view_array(&self) -> (r: ValueView<'_>)
        ensures
            match r {
                ValueView::String(v) => self@.array == ArrayModel::Strings(v.deep_view()),
                ValueView::U32(v) => self@.array == ArrayModel::U32s(v@),
                ValueView::F32(v) => self@.array == ArrayModel::F32s(v@),
            },
    {
        match &self.array {
            ValueArray::String(v) => ValueView::String(v),
            ValueArray::U32(v) => ValueView::U32(v),
            ValueArray::F32(v) => ValueView::F32(v),
        }
    }

    /// The string contents, where the element type is `String`.
    pub fn as_string(&self) -> (r: Option<&Vec<String>>)
        ensures
            match r {
                Some(v) => self@.array == ArrayModel::Strings(v.deep_view()),
                None => !(self@.array is Strings),
            },
    {
        match &self.array {
            ValueArray::String(v) => Some(v),
            _ => None,
        }
    }

    /// The `u32` contents, where the element type is `U32`.
    pub fn as_u32(&self) -> (r: Option<&Vec<u32>>)
        ensures
            match r {
                Some(v) => self@.array == ArrayModel::U32s(v@),
                None => !(self@.array is U32s),
            },
    {
        match &self.array {
            ValueArray::U32(v) => Some(v),
            _ => None,
        }
    }

    /// The `f32` contents as IEEE 754 bit patterns, where the element
    /// type is `F32`.
    pub fn as_f32(&self) -> (r: Option<&Vec<u32>>)
        ensures
            match r {
                Some(v) => self@.array == ArrayModel::F32s(v@),
                None => !(self@.array is F32s),
            },
    {
        match &self.array {
            ValueArray::F32(v) => Some(v),
            _ => None,
        }
    }

    /// The sub-array selected by the scope rule at `(layer, neuron)`:
    /// the scope's index axes are consumed by the coordinate and the
    /// remaining axes come back whole, as a complete (Global) value.
    pub fn slice_at(&self, layer: usize, neuron: usize) -> (r: Value)
        requires
            self@.wf(),
            self@.in_bounds_at(layer as int, neuron as int),
        ensures
            r@ == self@.spec_slice(layer as int, neuron as int),
            r@.wf(),
    {
        let ghost model = self@;
        let total = self.array.len();
        let axes = self.scope.index_axis_count();
        let dims = self.shape.len();
        let mut rest_shape: Vec<usize> = Vec::new();
        let mut i: usize = axes;
        while i < dims
            invariant
                axes <= i <= dims,
                dims == self.shape@.len(),
                rest_shape@ == self.shape@.subrange(axes as int, i as int),
            decreases dims - i,
        {
            let d = self.shape[i];
            rest_shape.push(d);
            proof {
                assert(self.shape@.subrange(axes as int, i + 1) =~= self.shape@.subrange(
                    axes as int,
                    i as int,
                ).push(self.shape@[i as int]));
            }
            i = i + 1;
        }
        proof {
            assert(rest_shape@ =~= model.shape.skip(axes as int));
            lemma_slice_rest_fits(model, layer as int, neuron as int);
        }
        // The remaining axes of a well-formed value cannot hold more
        // elements than the whole array, so the count is computable.
        let rest_size = checked_elem_product(&rest_shape).unwrap();
        proof {
            lemma_slice_rest_fits(model, layer as int, neuron as int);
            lemma_slice_offset_bounds(model, layer as int, neuron as int);
        }
        let offset: usize = match self.scope {
            Scope::Global => 0,
            Scope::Layer => layer * rest_size,
            Scope::Neuron => {
                if rest_size == 0 {
                    0
                } else {
                    let width = self.shape[1];
                    (layer * width + neuron) * rest_size
                }
            },
        };
        let end: usize = offset + rest_size;
        let array = match &self.array {
            ValueArray::String(v) => ValueArray::String(copy_string_range(v, offset, end)),
            ValueArray::U32(v) => ValueArray::U32(copy_u32_range(v, offset, end)),
            ValueArray::F32(v) => ValueArray::F32(copy_u32_range(v, offset, end)),
        };
        let r = Value { shape: rest_shape, array, scope: Scope::Global };
        proof {
            assert(r@ =~= model.spec_slice(layer as int, neuron as int));
        }
        r
    }
}

/// The remaining axes of a well-formed value hold no more elements than
/// the whole array, so their element count fits in `usize`.
proof fn lemma_slice_rest_fits(v: ValueModel, layer: int, neuron: int)
    requires
        v.wf(),
        v.in_bounds_at(layer, neuron),
    ensures
        elem_product(v.remaining_shape()) <= v.array.len(),
{
    let axes = v.scope.spec_index_axis_count() as int;
    lemma_elem_product_split(v.shape, axes);
    if v.scope is Global {
        assert(v.shape.take(0) =~= Seq::<usize>::empty());
        assert(v.remaining_shape() =~= v.shape);
    } else {
        let prefix = v.shape.take(axes);
        if v.scope is Layer {
            lemma_elem_product_singleton(prefix);
            assert(prefix[0] == v.shape[0]);
        } else {
            lemma_elem_product_pair(prefix);
            assert(elem_product(prefix) >= 1) by (nonlinear_arith)
                requires
                    elem_product(prefix) == prefix[0] * prefix[1],
                    prefix[0] >= 1,
                    prefix[1] >= 1,
            ;
        }
        assert(elem_product(v.remaining_shape()) <= elem_product(v.shape)) by (nonlinear_arith)
            requires
                elem_product(v.shape) == elem_product(v.shape.take(axes)) * elem_product(
                    v.shape.skip(axes),
                ),
                elem_product(v.shape.take(axes)) >= 1,
                v.remaining_shape() == v.shape.skip(axes),
        ;
    }
}

/// A two-axis shape holds one element per coordinate pair.
pub proof fn lemma_elem_product_pair(shape: Seq<usize>)
    requires
        shape.len() == 2,
    ensures
        elem_product(shape) == shape[0] * shape[1],
{
    lemma_elem_product_singleton(shape.drop_first());
    assert(elem_product(shape) == shape[0] * shape[1]) by (nonlinear_arith)
        requires
            elem_product(shape) == (shape[0] * elem_product(shape.drop_first())) as nat,
            elem_product(shape.drop_first()) == shape[1],
    ;
}

/// The slice window of an in-bounds coordinate lies inside the array:
/// the offset arithmetic neither overflows nor escapes the data.
proof fn lemma_slice_offset_bounds(v: ValueModel, layer: int, neuron: int)
    requires
        v.wf(),
        v.in_bounds_at(layer, neuron),
    ensures
        0 <= v.slice_offset(layer, neuron),
        v.slice_offset(layer, neuron) + elem_product(v.remaining_shape()) <= v.array.len(),
        v.scope is Neuron && elem_product(v.remaining_shape()) >= 1 ==> layer * v.shape[1]
            + neuron < v.shape[0] * v.shape[1] && v.shape[0] * v.shape[1] <= v.array.len(),
{
    let axes = v.scope.spec_index_axis_count() as int;
    let rest = elem_product(v.remaining_shape());
    lemma_elem_product_split(v.shape, axes);
    match v.scope {
        Scope::Global => {
            assert(v.remaining_shape() =~= v.shape);
        },
        Scope::Layer => {
            lemma_elem_product_singleton(v.shape.take(1));
            assert(0 <= layer * rest && layer * rest + rest <= v.array.len())
                by (nonlinear_arith)
                requires
                    elem_product(v.shape) == elem_product(v.shape.take(1)) * elem_product(
                        v.shape.skip(1),
                    ),
                    elem_product(v.shape.take(1)) == v.shape[0],
                    rest == elem_product(v.shape.skip(1)),
                    0 <= layer < v.shape[0],
                    v.array.len() == elem_product(v.shape),
            ;
        },
        Scope::Neuron => {
            lemma_elem_product_pair(v.shape.take(2));
            assert(v.shape.take(2)[0] == v.shape[0] && v.shape.take(2)[1] == v.shape[1]);
            let d0 = v.shape[0];
            let d1 = v.shape[1];
            assert(0 <= (layer * d1 + neuron) * rest && (layer * d1 + neuron) * rest + rest
                <= v.array.len() && (rest >= 1 ==> layer * d1 + neuron < d0 * d1 && d0 * d1
                <= v.array.len())) by (nonlinear_arith)
                requires
                    elem_product(v.shape) == elem_product(v.shape.take(2)) * elem_product(
                        v.shape.skip(2),
                    ),
                    elem_product(v.shape.take(2)) == d0 * d1,
                    rest == elem_product(v.shape.skip(2)),
                    0 <= layer < d0,
                    0 <= neuron < d1,
                    v.array.len() == elem_product(v.shape),
            ;
        },
    }
}

/// Row-major position of the multi-index `idx` in an array of the given
/// shape.
pub open spec fn flat_index(shape: Seq<usize>, idx: Seq<int>) -> int
    decreases shape.len(),
{
    if shape.len() == 0 {
        0
    } else {
        idx[0] * elem_product(shape.drop_first()) + flat_index(shape.drop_first(), idx.drop_first())
    }
}

/// The multi-index addresses one element of an array of the given shape:
/// one coordinate per axis, each within its axis.
pub open spec fn valid_index(shape: Seq<usize>, idx: Seq<int>) -> bool {
    idx.len() == shape.len() && forall|j: int| 0 <= j < idx.len() ==> 0 <= #[trigger] idx[j]
        < shape[j]
}

/// A valid multi-index lands inside the array.
pub proof fn lemma_flat_index_bounds(shape: Seq<usize>, idx: Seq<int>)
    requires
        valid_index(shape, idx),
    ensures
        0 <= flat_index(shape, idx) < elem_product(shape),
    decreases shape.len(),
{
    if shape.len() == 0 {
    } else {
        let rest = shape.drop_first();
        assert(valid_index(rest, idx.drop_first()));
        lemma_flat_index_bounds(rest, idx.drop_first());
        assert(0 <= flat_index(shape, idx) < elem_product(shape)) by (nonlinear_arith)
            requires
                flat_index(shape, idx) == idx[0] * elem_product(rest) + flat_index(
                    rest,
                    idx.drop_first(),
                ),
                0 <= flat_index(rest, idx.drop_first()) < elem_product(rest),
                0 <= idx[0] < shape[0],
                elem_product(shape) == (shape[0] * elem_product(rest)) as nat,
        ;
    }
}

/// The coordinate consumed by a scope's index axes, as a multi-index
/// prefix: nothing for Global, the layer for Layer, the layer and the
/// neuron for Neuron.
pub open spec fn coordinate_prefix(scope: Scope, layer: int, neuron: int) -> Seq<int> {
    match scope {
        Scope::Global => Seq::<int>::empty(),
        Scope::Layer => seq![layer],
        Scope::Neuron => seq![layer, neuron],
    }
}

/// Scope slicing law: for an in-bounds coordinate of a well-formed
/// value, the slice at that coordinate is exactly the sub-array there.
/// The slice window starts where the coordinate's own multi-index prefix
/// points, so the slice's element at multi-index `idx` is the value's
/// element at multi-index `coordinate ++ idx`; together with
/// [`ValueModel::spec_slice`]'s shape (the remaining axes) this pins the
/// slice down completely.
pub proof fn lemma_slice_at_flat_index(v: ValueModel, layer: int, neuron: int, idx: Seq<int>)
    requires
        v.wf(),
        v.in_bounds_at(layer, neuron),
        valid_index(v.remaining_shape(), idx),
    ensures
        v.spec_slice(layer, neuron).shape == v.remaining_shape(),
        0 <= v.slice_offset(layer, neuron),
        0 <= flat_index(v.remaining_shape(), idx) < elem_product(v.remaining_shape()),
        v.slice_offset(layer, neuron) + flat_index(v.remaining_shape(), idx) == flat_index(
            v.shape,
            coordinate_prefix(v.scope, layer, neuron) + idx,
        ),
{
    lemma_flat_index_bounds(v.remaining_shape(), idx);
    lemma_slice_offset_bounds(v, layer, neuron);
    let full = coordinate_prefix(v.scope, layer, neuron) + idx;
    match v.scope {
        Scope::Global => {
            assert(full =~= idx);
            assert(v.remaining_shape() =~= v.shape);
        },
        Scope::Layer => {
            let rest = v.shape.drop_first();
            assert(v.remaining_shape() =~= rest);
            assert(full.drop_first() =~= idx);
            assert(full[0] == layer);
            assert(flat_index(v.shape, full) == layer * elem_product(rest) + flat_index(
                rest,
                idx,
            ));
        },
        Scope::Neuron => {
            let rest1 = v.shape.drop_first();
            let rest2 = rest1.drop_first();
            assert(v.remaining_shape() =~= rest2);
            assert(v.shape.skip(2) =~= rest2);
            assert(full.drop_first() =~= seq![neuron] + idx);
            assert((seq![neuron] + idx).drop_first() =~= idx);
            assert(full[0] == layer && (seq![neuron] + idx)[0] == neuron);
            assert(flat_index(v.shape, full) == layer * elem_product(rest1) + flat_index(
                rest1,
                seq![neuron] + idx,
            ));
            assert(flat_index(rest1, seq![neuron] + idx) == neuron * elem_product(rest2)
                + flat_index(rest2, idx));
            assert(rest1[0] == v.shape[1]);
            assert((layer * v.shape[1] + neuron) * elem_product(rest2) + flat_index(rest2, idx)
                == layer * elem_product(rest1) + (neuron * elem_product(rest2) + flat_index(
                rest2,
                idx,
            ))) by (nonlinear_arith)
                requires
                    elem_product(rest1) == (v.shape[1] * elem_product(rest2)) as nat,
            ;
        },
    }
}

/// A fresh copy of a shape vector.
pub(crate) fn copy_shape(src: &Vec<usize>) -> (r: Vec<usize>)
    ensures
        r@ == src@,
{
    let n = src.len();
    let mut r: Vec<usize> = Vec::new();
    let mut i: usize = 0;
    while i < n
        invariant
            0 <= i <= n,
            n == src@.len(),
            r@ == src@.take(i as int),
        decreases n - i,
    {
        r.push(src[i]);
        proof {
            assert(src@.take(i + 1) =~= src@.take(i as int).push(src@[i as int]));
        }
        i = i + 1;
    }
    proof {
        assert(src@.take(n as int) =~= src@);
    }
    r
}

/// Copies the elements of `src` from `start` (inclusive) to `end`
/// (exclusive) into a fresh vector.
fn copy_u32_range(src: &Vec<u32>, start: usize, end: usize) -> (r: Vec<u32>)
    requires
        start <= end <= src@.len(),
    ensures
        r@ == src@.subrange(start as int, end as int),
{
    let mut r: Vec<u32> = Vec::new();
    let mut i: usize = start;
    while i < end
        invariant
            start <= i <= end <= src@.len(),
            r@ == src@.subrange(start as int, i as int),
        decreases end - i,
    {
        r.push(src[i]);
        proof {
            assert(src@.subrange(start as int, i + 1) =~= src@.subrange(start as int, i as int)
                .push(src@[i as int]));
        }
        i = i + 1;
    }
    r
}

/// Copies the strings of `src` from `start` (inclusive) to `end`
/// (exclusive) into a fresh vector.
fn copy_string_range(src: &Vec<String>, start: usize, end: usize) -> (r: Vec<String>)
    requires
        start <= end <= src@.len(),
    ensures
        r@ == src@.subrange(start as int, end as int),
        r.deep_view() == src.deep_view().subrange(start as int, end as int),
{
    let mut r: Vec<String> = Vec::new();
    let mut i: usize = start;
    while i < end
        invariant
            start <= i <= end <= src@.len(),
            r@ == src@.subrange(start as int, i as int),
        decreases end - i,
    {
        let s = src[i].clone();
        r.push(s);
        proof {
            assert(src@.subrange(start as int, i + 1) =~= src@.subrange(start as int, i as int)
                .push(src@[i as int]));
        }
        i = i + 1;
    }
    proof {
        assert(r.deep_view() =~= src.deep_view().subrange(start as int, end as int));
    }
    r
}

} // verus!
