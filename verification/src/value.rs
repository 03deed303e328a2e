//! The values the codec reads and writes.
use crate::primitive::Scalar;
use vstd::prelude::*;

verus! {

/// A value of some described type, in the shape the codec handles: a scalar,
/// an ordered list (the fields of a record, the items of a tuple, an array or a
/// sequence), or one variant of a sum type with its payload.
#[derive(Debug, PartialEq, Eq)]
pub enum Value {
    /// A primitive value.
    Scalar(Scalar),
    /// The parts of a record, tuple, array or sequence, in order.
    List(Vec<Value>),
    /// The variant with the given index in its sum type, and its payload in order.
    Variant(usize, Vec<Value>),
}

/// The mathematical content of a [`Value`].
pub enum SpecValue {
    Scalar(Scalar),
    List(Seq<SpecValue>),
    Variant(nat, Seq<SpecValue>),
}

impl SpecValue {
    /// The parts of a list or the payload of a variant; nothing for a scalar.
    pub open spec fn parts(self) -> Seq<SpecValue> {
        match self {
            SpecValue::Scalar(_) => Seq::empty(),
            SpecValue::List(parts) => parts,
            SpecValue::Variant(_, parts) => parts,
        }
    }
}

impl Value {
    /// The content of the value, part by part.
    pub open spec fn model(&self) -> SpecValue
        decreases self,
    {
        match self {
            Value::Scalar(s) => SpecValue::Scalar(*s),
            Value::List(parts) => SpecValue::List(
                Seq::new(
                    parts@.len(),
                    |i: int|
                        if 0 <= i < parts@.len() {
                            parts@[i].model()
                        } else {
                            SpecValue::List(Seq::empty())
                        },
                ),
            ),
            Value::Variant(index, parts) => SpecValue::Variant(
                *index as nat,
                Seq::new(
                    parts@.len(),
                    |i: int|
                        if 0 <= i < parts@.len() {
                            parts@[i].model()
                        } else {
                            SpecValue::List(Seq::empty())
                        },
                ),
            ),
        }
    }
}

impl View for Value {
    type V = SpecValue;

    open spec fn view(&self) -> SpecValue {
        self.model()
    }
}

/// The contents of a run of values.
pub open spec fn views(values: Seq<Value>) -> Seq<SpecValue> {
    values.map_values(|v: Value| v@)
}

/// What a list is made of: the contents of its parts.
pub proof fn lemma_view_list(parts: Vec<Value>)
    ensures
        Value::List(parts)@ == SpecValue::List(views(parts@)),
{
    assert(Value::List(parts)@->List_0 =~= views(parts@));
}

/// What a variant is made of: its index and the contents of its payload.
pub proof fn lemma_view_variant(index: usize, parts: Vec<Value>)
    ensures
        Value::Variant(index, parts)@ == SpecValue::Variant(index as nat, views(parts@)),
{
    assert(Value::Variant(index, parts)@->Variant_1 =~= views(parts@));
}

/// Adding a value to a run adds its content to the run's contents.
pub proof fn lemma_views_push(values: Seq<Value>, v: Value)
    ensures
        views(values.push(v)) == views(values).push(v@),
{
    assert(views(values.push(v)) =~= views(values).push(v@));
}

impl Value {
    /// A copy of the parts of a list or a payload.
    fn clone_parts(parts: &Vec<Value>) -> (copy: Vec<Value>)
        ensures
            views(copy@) == views(parts@),
        decreases parts,
    {
        let mut copy: Vec<Value> = Vec::new();
        let mut i: usize = 0;
        while i < parts.len()
            invariant
                i <= parts.len(),
                copy@.len() == i,
                views(copy@) == views(parts@.take(i as int)),
            decreases parts.len() - i,
        {
            let item = parts[i].clone();
            proof {
                lemma_views_push(copy@, item);
                lemma_views_push(parts@.take(i as int), parts@[i as int]);
                assert(parts@.take(i + 1) =~= parts@.take(i as int).push(parts@[i as int]));
            }
            copy.push(item);
            i = i + 1;
        }
        proof {
            assert(parts@.take(parts@.len() as int) =~= parts@);
        }
        copy
    }
}

impl Clone for Value {
    /// A copy with the same content.
    fn clone(&self) -> (copy: Self)
        ensures
            copy@ == self@,
        decreases self,
    {
        match self {
            Value::Scalar(s) => Value::Scalar(*s),
            Value::List(parts) => {
                let copy = Value::clone_parts(parts);
                proof {
                    lemma_view_list(copy);
                    lemma_view_list(*parts);
                }
                Value::List(copy)
            },
            Value::Variant(index, parts) => {
                let copy = Value::clone_parts(parts);
                proof {
                    lemma_view_variant(*index, copy);
                    lemma_view_variant(*index, *parts);
                }
                Value::Variant(*index, copy)
            },
        }
    }
}

impl Value {
    /// The parts of a list or the payload of a variant.
    pub fn parts(&self) -> (parts: &Vec<Value>)
        requires
            !(self@ is Scalar),
        ensures
            views(parts@) == self@.parts(),
    {
        match self {
            Value::List(parts) => {
                proof {
                    lemma_view_list(*parts);
                }
                parts
            },
            Value::Variant(index, parts) => {
                proof {
                    lemma_view_variant(*index, *parts);
                }
                parts
            },
            Value::Scalar(_) => vstd::pervasive::unreached(),
        }
    }
}

} // verus!
