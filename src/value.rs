//! Decoded values and their mathematical model.
use vstd::prelude::*;

verus! {

/// A value as the codec reads and writes it. Borrowed strings are views into
/// the input buffer, valid as long as that buffer lives.
#[derive(Debug, PartialEq)]
pub enum Value<'a> {
    /// An absent optional field.
    Null,
    Bool(bool),
    UInt(u64),
    Bytes(Vec<u8>),
    /// A text string, as its UTF-8 bytes.
    Text(Vec<u8>),
    BorrowedBytes(&'a [u8]),
    BorrowedText(&'a [u8]),
    /// The fields of a struct, in declaration order.
    Record(Vec<Value<'a>>),
    /// An enum value: the variant tag and its fields in declaration order.
    Variant(u32, Vec<Value<'a>>),
}

/// The mathematical value of a [`Value`].
pub ghost enum ValueModel {
    Null,
    Bool(bool),
    UInt(u64),
    Bytes(Seq<u8>),
    Text(Seq<u8>),
    BorrowedBytes(Seq<u8>),
    BorrowedText(Seq<u8>),
    Record(Seq<ValueModel>),
    Variant(u32, Seq<ValueModel>),
}

impl<'a> View for Value<'a> {
    type V = ValueModel;

    open spec fn view(&self) -> ValueModel {
        model_of(self)
    }
}

/// The model of a value, built bottom-up.
pub open spec fn model_of<'a>(v: &Value<'a>) -> ValueModel
    decreases v,
{
    match v {
        Value::Null => ValueModel::Null,
        Value::Bool(b) => ValueModel::Bool(*b),
        Value::UInt(n) => ValueModel::UInt(*n),
        Value::Bytes(b) => ValueModel::Bytes(b@),
        Value::Text(b) => ValueModel::Text(b@),
        Value::BorrowedBytes(b) => ValueModel::BorrowedBytes(b@),
        Value::BorrowedText(b) => ValueModel::BorrowedText(b@),
        Value::Record(vs) => ValueModel::Record(
            Seq::new(vs@.len(), |i: int| if 0 <= i < vs@.len() { model_of(&vs@[i]) } else { ValueModel::Null }),
        ),
        Value::Variant(t, vs) => ValueModel::Variant(
            *t,
            Seq::new(vs@.len(), |i: int| if 0 <= i < vs@.len() { model_of(&vs@[i]) } else { ValueModel::Null }),
        ),
    }
}

/// The models of a sequence of values.
pub open spec fn models<'a>(vs: Seq<Value<'a>>) -> Seq<ValueModel> {
    Seq::new(vs.len(), |i: int| vs[i]@)
}

pub proof fn lemma_record_view<'a>(vs: Vec<Value<'a>>)
    ensures
        Value::Record(vs)@ == ValueModel::Record(models(vs@)),
{
    let r = Value::Record(vs);
    assert(model_of(&r)->Record_0 =~= models(vs@));
}

pub proof fn lemma_variant_view<'a>(t: u32, vs: Vec<Value<'a>>)
    ensures
        Value::Variant(t, vs)@ == ValueModel::Variant(t, models(vs@)),
{
    let r = Value::Variant(t, vs);
    assert(model_of(&r)->Variant_1 =~= models(vs@));
}

} // verus!
