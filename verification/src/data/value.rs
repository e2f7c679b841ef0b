use crate::data::key::PathKey;
use std::sync::Arc;
use vstd::prelude::*;

verus! {

/// A scalar value as seen by specifications.
pub enum Scalar {
    Number(Seq<char>),
    String(Seq<char>),
    Boolean(bool),
    Null,
}

/// A number kept in its textual form, so that no precision is lost.
#[derive(Debug, Clone, PartialEq, Eq, Hash)]
pub struct DataValueNumber(String);

impl View for DataValueNumber {
    type V = Seq<char>;

    closed spec fn view(&self) -> Seq<char> {
        self.0@
    }
}

impl DataValueNumber {
    pub fn new(value: String) -> (r: Self)
        ensures
            r@ == value@,
    {
        Self(value)
    }

    pub fn as_str(&self) -> (r: &str)
        ensures
            r@ == self@,
    {
        self.0.as_str()
    }

    /// The text of the number.
    pub fn into_string(self) -> (r: String)
        ensures
            r@ == self@,
    {
        self.0
    }
}

impl From<DataValueNumber> for String {
    fn from(value: DataValueNumber) -> (r: String) {
        value.0
    }
}

impl vstd::std_specs::convert::FromSpecImpl<DataValueNumber> for String {
    open spec fn obeys_from_spec() -> bool {
        true
    }

    closed spec fn from_spec(v: DataValueNumber) -> String {
        v.0
    }
}

/// A borrowed number in its textual form.
#[derive(Debug, Clone, PartialEq, Eq, Hash)]
pub struct DataValueNumberRef<'a>(&'a str);

impl<'a> View for DataValueNumberRef<'a> {
    type V = Seq<char>;

    closed spec fn view(&self) -> Seq<char> {
        self.0@
    }
}

impl<'a> DataValueNumberRef<'a> {
    pub fn new(value: &'a str) -> (r: Self)
        ensures
            r@ == value@,
    {
        Self(value)
    }

    pub fn as_str(&self) -> (r: &'a str)
        ensures
            r@ == self@,
    {
        self.0
    }
}

/// An owned scalar value.
#[derive(Debug, Clone, PartialEq, Eq, Hash)]
pub enum DataValue {
    Number(DataValueNumber),
    String(String),
    Boolean(bool),
    Null,
}

impl View for DataValue {
    type V = Scalar;

    open spec fn view(&self) -> Scalar {
        match self {
            DataValue::Number(n) => Scalar::Number(n@),
            DataValue::String(s) => Scalar::String(s@),
            DataValue::Boolean(b) => Scalar::Boolean(*b),
            DataValue::Null => Scalar::Null,
        }
    }
}

/// A borrowed scalar value.
#[derive(Debug, Clone, PartialEq, Eq, Hash)]
pub enum DataValueRef<'a> {
    Number(DataValueNumberRef<'a>),
    String(&'a str),
    Boolean(bool),
    Null,
}

impl<'a> View for DataValueRef<'a> {
    type V = Scalar;

    open spec fn view(&self) -> Scalar {
        match self {
            DataValueRef::Number(n) => Scalar::Number(n@),
            DataValueRef::String(s) => Scalar::String(s@),
            DataValueRef::Boolean(b) => Scalar::Boolean(*b),
            DataValueRef::Null => Scalar::Null,
        }
    }
}

impl<'a> DataValueRef<'a> {
    /// An owned copy of the value.
    pub fn to_owned_value(&self) -> (r: DataValue)
        ensures
            r@ == self@,
    {
        match self {
            DataValueRef::Number(value) => DataValue::Number(DataValueNumber(value.0.to_owned())),
            DataValueRef::String(value) => DataValue::String((*value).to_owned()),
            DataValueRef::Boolean(value) => DataValue::Boolean(*value),
            DataValueRef::Null => DataValue::Null,
        }
    }

    pub fn is_number_or_null(&self) -> (r: bool)
        ensures
            r == (self@ is Number || self@ is Null),
    {
        matches!(self, DataValueRef::Number(_) | DataValueRef::Null)
    }

    pub fn is_string_or_null(&self) -> (r: bool)
        ensures
            r == (self@ is String || self@ is Null),
    {
        matches!(self, DataValueRef::String(_) | DataValueRef::Null)
    }

    pub fn is_bool_or_null(&self) -> (r: bool)
        ensures
            r == (self@ is Boolean || self@ is Null),
    {
        matches!(self, DataValueRef::Boolean(_) | DataValueRef::Null)
    }
}

impl<'a> From<DataValueRef<'a>> for DataValue {
    fn from(value: DataValueRef<'a>) -> (r: DataValue)
        ensures
            r@ == value@,
    {
        value.to_owned_value()
    }
}

impl<'a> vstd::std_specs::convert::FromSpecImpl<DataValueRef<'a>> for DataValue {
    open spec fn obeys_from_spec() -> bool {
        false
    }

    open spec fn from_spec(v: DataValueRef<'a>) -> DataValue {
        vstd::pervasive::arbitrary()
    }
}

/// A path together with every value found under it.
#[derive(Debug, Clone, PartialEq, Eq)]
pub struct DataValueItem<'a> {
    pub key: Arc<PathKey>,
    pub values: Vec<DataValueRef<'a>>,
}

impl<'a> DataValueItem<'a> {
    /// The values of the item as seen by specifications.
    pub open spec fn value_views(&self) -> Seq<Scalar> {
        self.values@.map_values(|v: DataValueRef<'a>| v@)
    }

    pub fn new(key: Arc<PathKey>, value: DataValueRef<'a>) -> (r: Self)
        ensures
            r.key == key,
            r.values@ == seq![value],
    {
        Self { key, values: vec![value] }
    }

    pub fn new_many(key: Arc<PathKey>, values: Vec<DataValueRef<'a>>) -> (r: Self)
        ensures
            r.key == key,
            r.values == values,
    {
        Self { key, values }
    }

    pub fn values_iter<'d>(&'d self) -> (r: std::slice::Iter<'d, DataValueRef<'a>>)
        ensures
            exists|s: &[DataValueRef<'a>]|
                s@ == self.values@ && r == vstd::std_specs::slice::spec_slice_iter(s),
    {
        let s = self.values.as_slice();
        s.iter()
    }

    pub fn is_any_string_or_null(&self) -> (r: bool)
        ensures
            r == exists|i: int|
                0 <= i < self.values@.len() && (#[trigger] self.values@[i]@ is String
                    || self.values@[i]@ is Null),
    {
        let mut i: usize = 0;
        while i < self.values.len()
            invariant
                0 <= i <= self.values@.len(),
                forall|j: int|
                    0 <= j < i ==> !(#[trigger] self.values@[j]@ is String
                        || self.values@[j]@ is Null),
            decreases self.values@.len() - i,
        {
            if self.values[i].is_string_or_null() {
                return true;
            }
            i = i + 1;
        }
        false
    }

    pub fn is_any_number_or_null(&self) -> (r: bool)
        ensures
            r == exists|i: int|
                0 <= i < self.values@.len() && (#[trigger] self.values@[i]@ is Number
                    || self.values@[i]@ is Null),
    {
        let mut i: usize = 0;
        while i < self.values.len()
            invariant
                0 <= i <= self.values@.len(),
                forall|j: int|
                    0 <= j < i ==> !(#[trigger] self.values@[j]@ is Number
                        || self.values@[j]@ is Null),
            decreases self.values@.len() - i,
        {
            if self.values[i].is_number_or_null() {
                return true;
            }
            i = i + 1;
        }
        false
    }
}

} // verus!
