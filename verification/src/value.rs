//! The tree value model shared by inputs, templates and outputs.
//!
//! A document is a closed tagged union: null, boolean, number, string,
//! ordered array, and object with insertion-ordered fields. Numbers are
//! carried as their literal text; the mapping engine never interprets
//! them, so no precision is lost in transit.

use vstd::prelude::*;

verus! {

/// A document tree. `Object` keeps its fields in insertion order; the
/// engine itself never reorders fields except where renaming a key says so.
#[derive(Debug, PartialEq)]
pub enum Value {
    Null,
    Bool(bool),
    /// A number, kept as the literal text it was written with.
    Number(String),
    Text(String),
    Array(Vec<Value>),
    Object(Vec<(String, Value)>),
}

/// The mathematical shape of a [`Value`]: the same tree over `Seq<char>`
/// and `Seq`, which the contracts of the engine speak of.
#[verifier::ext_equal]
pub enum SpecValue {
    Null,
    Bool(bool),
    Number(Seq<char>),
    Text(Seq<char>),
    Array(Seq<SpecValue>),
    Object(Seq<(Seq<char>, SpecValue)>),
}

/// The abstraction of an executable tree.
pub open spec fn value_view(v: Value) -> SpecValue
    decreases v,
{
    match v {
        Value::Null => SpecValue::Null,
        Value::Bool(b) => SpecValue::Bool(b),
        Value::Number(s) => SpecValue::Number(s@),
        Value::Text(s) => SpecValue::Text(s@),
        Value::Array(a) => SpecValue::Array(
            Seq::new(
                a@.len(),
                |i: int|
                    if 0 <= i < a@.len() {
                        value_view(a@[i])
                    } else {
                        SpecValue::Null
                    },
            ),
        ),
        Value::Object(m) => SpecValue::Object(
            Seq::new(
                m@.len(),
                |i: int|
                    if 0 <= i < m@.len() {
                        (m@[i].0@, value_view(m@[i].1))
                    } else {
                        (Seq::empty(), SpecValue::Null)
                    },
            ),
        ),
    }
}

impl View for Value {
    type V = SpecValue;

    open spec fn view(&self) -> SpecValue {
        value_view(*self)
    }
}

/// The abstraction of an array's elements.
pub open spec fn elems_view(a: Seq<Value>) -> Seq<SpecValue> {
    Seq::new(
        a.len(),
        |i: int|
            if 0 <= i < a.len() {
                value_view(a[i])
            } else {
                SpecValue::Null
            },
    )
}

/// The abstraction of an object's fields.
pub open spec fn fields_view(m: Seq<(String, Value)>) -> Seq<(Seq<char>, SpecValue)> {
    Seq::new(
        m.len(),
        |i: int|
            if 0 <= i < m.len() {
                (m[i].0@, value_view(m[i].1))
            } else {
                (Seq::empty(), SpecValue::Null)
            },
    )
}

/// An array value abstracts to the abstraction of its elements.
pub broadcast proof fn lemma_view_array(a: Vec<Value>)
    ensures
        #[trigger] value_view(Value::Array(a)) == SpecValue::Array(elems_view(a@)),
{
    assert(value_view(Value::Array(a))->Array_0 =~= elems_view(a@));
    assert(value_view(Value::Array(a)) =~= SpecValue::Array(elems_view(a@)));
}

/// An object value abstracts to the abstraction of its fields.
pub broadcast proof fn lemma_view_object(m: Vec<(String, Value)>)
    ensures
        #[trigger] value_view(Value::Object(m)) == SpecValue::Object(fields_view(m@)),
{
    assert(value_view(Value::Object(m))->Object_0 =~= fields_view(m@));
    assert(value_view(Value::Object(m)) =~= SpecValue::Object(fields_view(m@)));
}

impl Value {
    /// A deep copy of the tree.
    pub fn duplicate(&self) -> (r: Value)
        ensures
            r@ == self@,
        decreases *self,
    {
        match self {
            Value::Null => Value::Null,
            Value::Bool(b) => Value::Bool(*b),
            Value::Number(s) => Value::Number(s.clone()),
            Value::Text(s) => Value::Text(s.clone()),
            Value::Array(a) => {
                let mut out: Vec<Value> = Vec::new();
                let mut i: usize = 0;
                #[verifier::loop_isolation(false)]
                while i < a.len()
                    invariant
                        i <= a.len(),
                        out@.len() == i as int,
                        forall|j: int| 0 <= j < i as int ==> out@[j]@ == value_view(a@[j]),
                    decreases a.len() - i,
                {
                    proof {
                        assert(*self == Value::Array(*a));
                        assert(decreases_to!(Value::Array(*a) => *a));
                        assert(decreases_to!(*a => (*a)[i as int]));
                    }
                    out.push(a[i].duplicate());
                    i = i + 1;
                }
                let r = Value::Array(out);
                proof {
                    assert(r@ matches SpecValue::Array(s) && s =~= self@->Array_0);
                }
                r
            },
            Value::Object(m) => {
                let mut out: Vec<(String, Value)> = Vec::new();
                let mut i: usize = 0;
                #[verifier::loop_isolation(false)]
                while i < m.len()
                    invariant
                        i <= m.len(),
                        out@.len() == i as int,
                        forall|j: int| 0 <= j < i as int ==> out@[j].0@ == m@[j].0@
                            && out@[j].1@ == value_view(m@[j].1),
                    decreases m.len() - i,
                {
                    proof {
                        assert(*self == Value::Object(*m));
                        assert(decreases_to!(Value::Object(*m) => *m));
                        assert(decreases_to!(*m => (*m)[i as int]));
                        assert(decreases_to!((*m)[i as int] => (*m)[i as int].1));
                    }
                    let entry = &m[i];
                    out.push((entry.0.clone(), entry.1.duplicate()));
                    i = i + 1;
                }
                let r = Value::Object(out);
                proof {
                    assert(r@ matches SpecValue::Object(s) && s =~= self@->Object_0);
                }
                r
            },
        }
    }
}

/// A deep copy of an array's elements.
pub fn dup_elems(a: &Vec<Value>) -> (r: Vec<Value>)
    ensures
        r@.len() == a@.len(),
        elems_view(r@) =~= elems_view(a@),
{
    let mut out: Vec<Value> = Vec::new();
    let mut i: usize = 0;
    #[verifier::loop_isolation(false)]
    while i < a.len()
        invariant
            i <= a.len(),
            out@.len() == i as int,
            forall|j: int| 0 <= j < i as int ==> out@[j]@ == value_view(a@[j]),
        decreases a.len() - i,
    {
        out.push(a[i].duplicate());
        i = i + 1;
    }
    out
}

/// A deep copy of an object's fields.
pub fn dup_fields(m: &Vec<(String, Value)>) -> (r: Vec<(String, Value)>)
    ensures
        r@.len() == m@.len(),
        fields_view(r@) =~= fields_view(m@),
{
    let mut out: Vec<(String, Value)> = Vec::new();
    let mut i: usize = 0;
    #[verifier::loop_isolation(false)]
    while i < m.len()
        invariant
            i <= m.len(),
            out@.len() == i as int,
            forall|j: int| 0 <= j < i as int ==> out@[j].0@ == m@[j].0@ && out@[j].1@ == value_view(
                m@[j].1,
            ),
        decreases m.len() - i,
    {
        let entry = &m[i];
        out.push((entry.0.clone(), entry.1.duplicate()));
        i = i + 1;
    }
    out
}

} // verus!
