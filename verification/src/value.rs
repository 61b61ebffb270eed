//! The main storage for values travelling through the system.
//! We have support for singular as well as composite values.

use crate::binary32;
use crate::text::same_text;
use vstd::prelude::*;
use vstd::std_specs::cmp::PartialEqSpecImpl;

verus! {

/// The element type of a value.
#[derive(Debug, Clone, Copy, PartialEq, Eq, Structural)]
pub enum ValueKind {
    Int,
    Float,
    String,
}

impl ValueKind {
    /// The number that stands for this kind in encoded form.
    pub open spec fn spec_tag(self) -> u8 {
        match self {
            ValueKind::Int => 1,
            ValueKind::Float => 2,
            ValueKind::String => 3,
        }
    }

    /// The number that stands for this kind in encoded form.
    #[verifier::when_used_as_spec(spec_tag)]
    pub fn tag(self) -> (tag: u8)
        ensures
            tag == self.spec_tag(),
            ValueKind::of_tag(tag) == Some(self),
    {
        match self {
            ValueKind::Int => 1,
            ValueKind::Float => 2,
            ValueKind::String => 3,
        }
    }

    /// The kind that `tag` stands for, if any.
    pub open spec fn of_tag(tag: u8) -> Option<ValueKind> {
        if tag == 1 {
            Some(ValueKind::Int)
        } else if tag == 2 {
            Some(ValueKind::Float)
        } else if tag == 3 {
            Some(ValueKind::String)
        } else {
            None
        }
    }

    /// The kind that `tag` stands for, if any.
    pub fn from_tag(tag: u8) -> (kind: Option<ValueKind>)
        ensures
            kind == ValueKind::of_tag(tag),
    {
        if tag == 1 {
            Some(ValueKind::Int)
        } else if tag == 2 {
            Some(ValueKind::Float)
        } else if tag == 3 {
            Some(ValueKind::String)
        } else {
            None
        }
    }
}

impl From<ValueKind> for u8 {
    fn from(kind: ValueKind) -> (tag: u8) {
        kind.tag()
    }
}

impl vstd::std_specs::convert::FromSpecImpl<ValueKind> for u8 {
    open spec fn obeys_from_spec() -> bool {
        true
    }

    open spec fn from_spec(kind: ValueKind) -> u8 {
        kind.spec_tag()
    }
}

/// A scalar or a list of scalars.
///
/// A float is held as its IEEE 754 binary32 bit pattern.
#[derive(Debug)]
pub enum Value {
    Int(i32),
    Float(u32),
    String(String),
    IntList(Vec<i32>),
    FloatList(Vec<u32>),
    StringList(Vec<String>),
}

/// The mathematical content of a [`Value`].
pub enum ValueModel {
    Int(i32),
    Float(u32),
    String(Seq<char>),
    IntList(Seq<i32>),
    FloatList(Seq<u32>),
    StringList(Seq<Seq<char>>),
}

impl View for Value {
    type V = ValueModel;

    open spec fn view(&self) -> ValueModel {
        match self {
            Value::Int(v) => ValueModel::Int(*v),
            Value::Float(bits) => ValueModel::Float(*bits),
            Value::String(s) => ValueModel::String(s@),
            Value::IntList(items) => ValueModel::IntList(items@),
            Value::FloatList(items) => ValueModel::FloatList(items@),
            Value::StringList(items) => ValueModel::StringList(items@.map_values(|s: String| s@)),
        }
    }
}

impl ValueModel {
    /// The number of elements: one for a scalar.
    pub open spec fn len(self) -> nat {
        match self {
            ValueModel::Int(_) | ValueModel::Float(_) | ValueModel::String(_) => 1,
            ValueModel::IntList(items) => items.len(),
            ValueModel::FloatList(items) => items.len(),
            ValueModel::StringList(items) => items.len(),
        }
    }

    /// The type of the elements.
    pub open spec fn kind(self) -> ValueKind {
        match self {
            ValueModel::Int(_) | ValueModel::IntList(_) => ValueKind::Int,
            ValueModel::Float(_) | ValueModel::FloatList(_) => ValueKind::Float,
            ValueModel::String(_) | ValueModel::StringList(_) => ValueKind::String,
        }
    }

    /// Whether the value is a list rather than a scalar.
    pub open spec fn is_list(self) -> bool {
        self is IntList || self is FloatList || self is StringList
    }

    /// Whether two values are equal: of the same variant, with equal
    /// contents, floats being compared as numbers.
    pub open spec fn same(self, other: ValueModel) -> bool {
        match (self, other) {
            (ValueModel::Int(a), ValueModel::Int(b)) => a == b,
            (ValueModel::Float(a), ValueModel::Float(b)) => binary32::equal_spec(a, b),
            (ValueModel::String(a), ValueModel::String(b)) => a == b,
            (ValueModel::IntList(a), ValueModel::IntList(b)) => a == b,
            (ValueModel::FloatList(a), ValueModel::FloatList(b)) => a.len() == b.len()
                && forall|i: int| 0 <= i < a.len() ==> binary32::equal_spec(a[i], b[i]),
            (ValueModel::StringList(a), ValueModel::StringList(b)) => a == b,
            _ => false,
        }
    }

    /// Whether an element can be read: every value but an empty list of
    /// numbers has one at each index.
    pub open spec fn has_elements(self) -> bool {
        match self {
            ValueModel::IntList(items) => items.len() > 0,
            ValueModel::FloatList(items) => items.len() > 0,
            _ => true,
        }
    }

    /// The element at `index` as an integer. A list is read at `index` modulo
    /// its length, a scalar is the same at every index, a float is converted
    /// and text counts as zero.
    pub open spec fn get_int(self, index: nat) -> i32
        recommends
            self.has_elements(),
    {
        match self {
            ValueModel::Int(v) => v,
            ValueModel::Float(bits) => binary32::to_i32_spec(bits),
            ValueModel::String(_) => 0,
            ValueModel::IntList(items) => items[(index % items.len()) as int],
            ValueModel::FloatList(items) => binary32::to_i32_spec(
                items[(index % items.len()) as int],
            ),
            ValueModel::StringList(_) => 0,
        }
    }
}

impl Clone for Value {
    fn clone(&self) -> (copy: Value)
        ensures
            copy@ == self@,
    {
        match self {
            Value::Int(v) => Value::Int(*v),
            Value::Float(bits) => Value::Float(*bits),
            Value::String(s) => Value::String(s.clone()),
            Value::IntList(items) => {
                let copy = items.clone();
                assert(copy@ =~= items@);
                Value::IntList(copy)
            },
            Value::FloatList(items) => {
                let copy = items.clone();
                assert(copy@ =~= items@);
                Value::FloatList(copy)
            },
            Value::StringList(items) => {
                let copy = items.clone();
                assert(copy@.map_values(|s: String| s@) =~= items@.map_values(|s: String| s@));
                Value::StringList(copy)
            },
        }
    }
}

impl PartialEq for Value {
    /// Two values are equal when they are of the same variant and hold equal
    /// contents, floats being compared as numbers.
    fn eq(&self, other: &Value) -> (equal: bool) {
        self.same(other)
    }
}

impl PartialEqSpecImpl for Value {
    open spec fn obeys_eq_spec() -> bool {
        true
    }

    open spec fn eq_spec(&self, other: &Value) -> bool {
        self@.same(other@)
    }
}

/// Whether two lists of integers are equal.
fn same_ints(a: &Vec<i32>, b: &Vec<i32>) -> (same: bool)
    ensures
        same == (a@ == b@),
{
    if a.len() != b.len() {
        return false;
    }
    let mut i: usize = 0;
    while i < a.len()
        invariant
            i <= a.len(),
            a.len() == b.len(),
            forall|j: int| 0 <= j < i ==> a@[j] == b@[j],
        decreases a.len() - i,
    {
        if a[i] != b[i] {
            return false;
        }
        i += 1;
    }
    assert(a@ =~= b@);
    true
}

/// Whether two lists of floats are equal, number by number.
fn same_floats(a: &Vec<u32>, b: &Vec<u32>) -> (same: bool)
    ensures
        same == (a@.len() == b@.len() && forall|i: int|
            0 <= i < a@.len() ==> binary32::equal_spec(a@[i], b@[i])),
{
    if a.len() != b.len() {
        return false;
    }
    let mut i: usize = 0;
    while i < a.len()
        invariant
            i <= a.len(),
            a.len() == b.len(),
            forall|j: int| 0 <= j < i ==> binary32::equal_spec(a@[j], b@[j]),
        decreases a.len() - i,
    {
        if !binary32::equal(a[i], b[i]) {
            return false;
        }
        i += 1;
    }
    true
}

/// Whether two lists of strings are equal.
fn same_strings(a: &Vec<String>, b: &Vec<String>) -> (same: bool)
    ensures
        same == (a@.map_values(|s: String| s@) == b@.map_values(|s: String| s@)),
{
    let ghost left = a@.map_values(|s: String| s@);
    let ghost right = b@.map_values(|s: String| s@);
    if a.len() != b.len() {
        assert(left.len() != right.len());
        return false;
    }
    let mut i: usize = 0;
    while i < a.len()
        invariant
            i <= a.len(),
            a.len() == b.len(),
            left == a@.map_values(|s: String| s@),
            right == b@.map_values(|s: String| s@),
            forall|j: int| 0 <= j < i ==> left[j] == right[j],
        decreases a.len() - i,
    {
        if !same_text(a[i].as_str(), b[i].as_str()) {
            assert(left[i as int] != right[i as int]);
            return false;
        }
        i += 1;
    }
    assert(left =~= right);
    true
}

impl Value {
    /// The number of elements: one for a scalar.
    pub fn len(&self) -> (n: usize)
        ensures
            n == self@.len(),
    {
        match self {
            Value::Int(_) | Value::Float(_) | Value::String(_) => 1,
            Value::IntList(spread) => spread.len(),
            Value::FloatList(spread) => spread.len(),
            Value::StringList(spread) => spread.len(),
        }
    }

    /// The type of the elements.
    pub fn kind(&self) -> (kind: ValueKind)
        ensures
            kind == self@.kind(),
    {
        match self {
            Value::Int(_) | Value::IntList(_) => ValueKind::Int,
            Value::Float(_) | Value::FloatList(_) => ValueKind::Float,
            Value::String(_) | Value::StringList(_) => ValueKind::String,
        }
    }

    /// Whether the value is a list rather than a scalar.
    pub fn is_list(&self) -> (list: bool)
        ensures
            list == self@.is_list(),
    {
        match self {
            Value::IntList(_) | Value::FloatList(_) | Value::StringList(_) => true,
            _ => false,
        }
    }

    /// Whether two values are equal: of the same variant, with equal
    /// contents, floats being compared as numbers.
    pub fn same(&self, other: &Value) -> (same: bool)
        ensures
            same == self@.same(other@),
    {
        match (self, other) {
            (Value::Int(a), Value::Int(b)) => *a == *b,
            (Value::Float(a), Value::Float(b)) => binary32::equal(*a, *b),
            (Value::String(a), Value::String(b)) => same_text(a.as_str(), b.as_str()),
            (Value::IntList(a), Value::IntList(b)) => same_ints(a, b),
            (Value::FloatList(a), Value::FloatList(b)) => same_floats(a, b),
            (Value::StringList(a), Value::StringList(b)) => same_strings(a, b),
            _ => false,
        }
    }

    /// The element at `index` as an integer, where a list wraps around.
    pub fn get_int(&self, index: usize) -> (n: i32)
        requires
            self@.has_elements(),
        ensures
            n == self@.get_int(index as nat),
    {
        match self {
            Value::Int(v) => *v,
            Value::Float(v) => binary32::to_i32(*v),
            Value::String(_) => 0,
            Value::IntList(v) => v[index % v.len()],
            Value::FloatList(v) => binary32::to_i32(v[index % v.len()]),
            Value::StringList(_) => 0,
        }
    }
}

} // verus!
