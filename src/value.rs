//! Property types and typed property values.
use vstd::prelude::*;

verus! {

/// The type tag that the kernel attaches to a property.
#[derive(Clone, Copy, Debug, PartialEq, Eq)]
pub enum DiPropType {
    Boolean,
    Int,
    String,
    Byte,
    Unknown,
    UndefIt,
    Int64,
}

/// The property type that a native tag stands for, if any.
pub open spec fn tag_type(tag: i32) -> Option<DiPropType> {
    if tag == 0 {
        Some(DiPropType::Boolean)
    } else if tag == 1 {
        Some(DiPropType::Int)
    } else if tag == 2 {
        Some(DiPropType::String)
    } else if tag == 3 {
        Some(DiPropType::Byte)
    } else if tag == 4 {
        Some(DiPropType::Unknown)
    } else if tag == 5 {
        Some(DiPropType::UndefIt)
    } else if tag == 6 {
        Some(DiPropType::Int64)
    } else {
        None
    }
}

impl DiPropType {
    /// Maps a native tag to its property type; tags outside the known range
    /// give `None`.
    pub fn from_tag(tag: i32) -> (r: Option<DiPropType>)
        ensures
            r == tag_type(tag),
    {
        match tag {
            0 => Some(DiPropType::Boolean),
            1 => Some(DiPropType::Int),
            2 => Some(DiPropType::String),
            3 => Some(DiPropType::Byte),
            4 => Some(DiPropType::Unknown),
            5 => Some(DiPropType::UndefIt),
            6 => Some(DiPropType::Int64),
            _ => None,
        }
    }
}

/// A decoded property value.
#[derive(Debug, PartialEq)]
pub enum DiPropValue {
    Boolean(bool),
    Ints(Vec<i32>),
    Int64s(Vec<i64>),
    Strings(Vec<String>),
}

/// The mathematical content of a `DiPropValue`.
pub enum PropModel {
    Boolean(bool),
    Ints(Seq<i32>),
    Int64s(Seq<i64>),
    Strings(Seq<Seq<char>>),
}

impl View for DiPropValue {
    type V = PropModel;

    open spec fn view(&self) -> PropModel {
        match self {
            DiPropValue::Boolean(b) => PropModel::Boolean(*b),
            DiPropValue::Ints(xs) => PropModel::Ints(xs@),
            DiPropValue::Int64s(xs) => PropModel::Int64s(xs@),
            DiPropValue::Strings(ss) => PropModel::Strings(ss@.map_values(|s: String| s@)),
        }
    }
}

/// A value matches an integer when it holds exactly one 32-bit integer, and
/// that integer is the one asked for.
pub open spec fn int_matches(v: PropModel, x: i32) -> bool {
    match v {
        PropModel::Ints(xs) => xs.len() == 1 && xs[0] == x,
        _ => false,
    }
}

impl DiPropValue {
    pub fn matches_int(&self, x: i32) -> (r: bool)
        ensures
            r == int_matches(self@, x),
    {
        match self {
            DiPropValue::Ints(xs) => {
                if xs.len() != 1 {
                    return false;
                }
                xs[0] == x
            },
            _ => false,
        }
    }
}

} // verus!
