//! Error taxonomy. Every error is deterministic and input-derived, and
//! carries the context (value name, expected vs. found) a producer needs
//! to fix its input: there is no retry and no partial success.

use vstd::prelude::*;

use crate::value::{DataType, Scope};

verus! {

/// Model of [`ArgumentErrorType`], names as character sequences.
#[verifier::ext_equal]
pub ghost enum ArgumentErrorTypeModel {
    MissingValue(Seq<char>),
    DataType { required_data_type: DataType, found_data_type: DataType },
    Scope { required_scope: Scope, found_scope: Scope },
    AxisNum { required_axis_num: int, found_axis_num: int },
    Other(Seq<char>),
}

/// Model of [`ArgumentError`].
#[verifier::ext_equal]
pub ghost struct ArgumentErrorModel {
    pub error_type: ArgumentErrorTypeModel,
    pub value_name: Seq<char>,
}

/// Which check a template argument failed during validation against a
/// store.
#[derive(Clone, Debug)]
pub enum ArgumentErrorType {
    /// The named value is absent from the store.
    MissingValue(String),
    /// The value's element type is not the one the element requires.
    DataType { required_data_type: DataType, found_data_type: DataType },
    /// The value's scope is not the one the element requires.
    Scope { required_scope: Scope, found_scope: Scope },
    /// After removing the scope's index axes, the wrong number of axes
    /// remains — often a sign that the scope itself is wrong.
    AxisNum { required_axis_num: usize, found_axis_num: usize },
    /// Any other violation, described in words.
    Other(String),
}

impl View for ArgumentErrorType {
    type V = ArgumentErrorTypeModel;

    open spec fn view(&self) -> ArgumentErrorTypeModel {
        match self {
            ArgumentErrorType::MissingValue(name) => ArgumentErrorTypeModel::MissingValue(name@),
            ArgumentErrorType::DataType { required_data_type, found_data_type } =>
                ArgumentErrorTypeModel::DataType {
                required_data_type: *required_data_type,
                found_data_type: *found_data_type,
            },
            ArgumentErrorType::Scope { required_scope, found_scope } =>
                ArgumentErrorTypeModel::Scope {
                required_scope: *required_scope,
                found_scope: *found_scope,
            },
            ArgumentErrorType::AxisNum { required_axis_num, found_axis_num } =>
                ArgumentErrorTypeModel::AxisNum {
                required_axis_num: *required_axis_num as int,
                found_axis_num: *found_axis_num as int,
            },
            ArgumentErrorType::Other(text) => ArgumentErrorTypeModel::Other(text@),
        }
    }
}

/// A validation failure: which check failed, on which named argument.
#[derive(Clone, Debug)]
pub struct ArgumentError {
    pub error_type: ArgumentErrorType,
    pub value_name: String,
}

impl View for ArgumentError {
    type V = ArgumentErrorModel;

    open spec fn view(&self) -> ArgumentErrorModel {
        ArgumentErrorModel { error_type: self.error_type@, value_name: self.value_name@ }
    }
}

/// Model of [`ParseError`].
#[verifier::ext_equal]
pub ghost enum ParseErrorModel {
    Unterminated,
    UnknownElement(Seq<char>),
    WrongArgumentCount { element_name: Seq<char>, required: int, found: int },
}

/// A malformed template source: parsing is fatal, nothing is recovered.
#[derive(Clone, Debug)]
pub enum ParseError {
    /// A directive is missing its `(` or its closing `)`.
    Unterminated,
    /// A directive names no known element kind.
    UnknownElement(String),
    /// A directive has the wrong number of arguments for its kind.
    WrongArgumentCount { element_name: String, required: usize, found: usize },
}

impl View for ParseError {
    type V = ParseErrorModel;

    open spec fn view(&self) -> ParseErrorModel {
        match self {
            ParseError::Unterminated => ParseErrorModel::Unterminated,
            ParseError::UnknownElement(name) => ParseErrorModel::UnknownElement(name@),
            ParseError::WrongArgumentCount { element_name, required, found } =>
                ParseErrorModel::WrongArgumentCount {
                element_name: element_name@,
                required: *required as int,
                found: *found as int,
            },
        }
    }
}

/// Model of [`BuilderError`].
#[verifier::ext_equal]
pub ghost enum BuilderErrorModel {
    DuplicateName(Seq<char>),
    ShapeMismatch { value_name: Seq<char>, scope: Scope, shape: Seq<usize> },
    TypeMismatch { value_name: Seq<char>, required: DataType, found: DataType },
    NotFound(Seq<char>),
    TemplateNotSet,
    Argument(ArgumentErrorModel),
}

/// A payload builder refusal.
#[derive(Clone, Debug)]
pub enum BuilderError {
    /// The name is already stored, or reserved for a derived value.
    DuplicateName(String),
    /// The value's leading axes do not match its scope against the
    /// builder's dimensions, or a rank source is not one scalar per
    /// neuron.
    ShapeMismatch { value_name: String, scope: Scope, shape: Vec<usize> },
    /// The value's element type is not the required one.
    TypeMismatch { value_name: String, required: DataType, found: DataType },
    /// No value of that name has been added.
    NotFound(String),
    /// `build` was called before a template was set.
    TemplateNotSet,
    /// The template failed validation against the final store.
    Argument(ArgumentError),
}

impl View for BuilderError {
    type V = BuilderErrorModel;

    open spec fn view(&self) -> BuilderErrorModel {
        match self {
            BuilderError::DuplicateName(name) => BuilderErrorModel::DuplicateName(name@),
            BuilderError::ShapeMismatch { value_name, scope, shape } =>
                BuilderErrorModel::ShapeMismatch {
                value_name: value_name@,
                scope: *scope,
                shape: shape@,
            },
            BuilderError::TypeMismatch { value_name, required, found } =>
                BuilderErrorModel::TypeMismatch {
                value_name: value_name@,
                required: *required,
                found: *found,
            },
            BuilderError::NotFound(name) => BuilderErrorModel::NotFound(name@),
            BuilderError::TemplateNotSet => BuilderErrorModel::TemplateNotSet,
            BuilderError::Argument(e) => BuilderErrorModel::Argument(e@),
        }
    }
}

} // verus!
