use vstd::prelude::*;

verus! {

/// A symbolic name for one column of a relation.
pub type Var = u32;

/// An entity identifier.
pub type Eid = u64;

/// An attribute name.
pub type Aid = String;

/// One cell of a row.
#[derive(Debug, Eq, PartialOrd, Ord, Hash)]
pub enum Value {
    /// An attribute name
    Aid(Aid),
    /// A string
    String(String),
    /// A boolean
    Bool(bool),
    /// A 64 bit signed integer
    Number(i64),
    /// An entity identifier
    Eid(Eid),
    /// Milliseconds since midnight, January 1, 1970 UTC
    Instant(u64),
}

/// What a `Value` stands for: the same cases, with strings as sequences of
/// characters.
pub enum ValueModel {
    Aid(Seq<char>),
    String(Seq<char>),
    Bool(bool),
    Number(i64),
    Eid(u64),
    Instant(u64),
}

impl DeepView for Value {
    type V = ValueModel;

    open spec fn deep_view(&self) -> ValueModel {
        match self {
            Value::Aid(a) => ValueModel::Aid(a@),
            Value::String(s) => ValueModel::String(s@),
            Value::Bool(b) => ValueModel::Bool(*b),
            Value::Number(n) => ValueModel::Number(*n),
            Value::Eid(e) => ValueModel::Eid(*e),
            Value::Instant(t) => ValueModel::Instant(*t),
        }
    }
}

impl Clone for Value {
    fn clone(&self) -> (copy: Self)
        ensures
            copy == *self,
    {
        match self {
            Value::Aid(a) => Value::Aid(a.clone()),
            Value::String(s) => Value::String(s.clone()),
            Value::Bool(b) => Value::Bool(*b),
            Value::Number(n) => Value::Number(*n),
            Value::Eid(e) => Value::Eid(*e),
            Value::Instant(t) => Value::Instant(*t),
        }
    }
}

impl PartialEq for Value {
    fn eq(&self, other: &Self) -> (same: bool) {
        match self {
            Value::Aid(a) => match other {
                Value::Aid(b) => *a == *b,
                _ => false,
            },
            Value::String(a) => match other {
                Value::String(b) => *a == *b,
                _ => false,
            },
            Value::Bool(a) => match other {
                Value::Bool(b) => *a == *b,
                _ => false,
            },
            Value::Number(a) => match other {
                Value::Number(b) => *a == *b,
                _ => false,
            },
            Value::Eid(a) => match other {
                Value::Eid(b) => *a == *b,
                _ => false,
            },
            Value::Instant(a) => match other {
                Value::Instant(b) => *a == *b,
                _ => false,
            },
        }
    }
}

impl vstd::std_specs::cmp::PartialEqSpecImpl for Value {
    open spec fn obeys_eq_spec() -> bool {
        true
    }

    open spec fn eq_spec(&self, other: &Self) -> bool {
        self.deep_view() == other.deep_view()
    }
}

} // verus!
