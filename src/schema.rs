//! The schema model: a declarative description of the fields of structs and
//! the variants of enums, which the codec reads and never changes.
use vstd::prelude::*;
use vstd::string::*;
use crate::error::{Error, ErrorModel};

verus! {

/// How the fields of a struct or variant are framed on the wire.
#[derive(Clone, Copy, Debug, PartialEq, Eq, Structural)]
pub enum TypeEncoding {
    /// A CBOR array, addressed by position.
    Array,
    /// A CBOR map, keyed by field index.
    Keyed,
}

/// The attributes of a struct or enum type.
#[derive(Clone, Copy, Debug, PartialEq, Eq, Structural)]
pub struct TypeAttributes {
    pub encoding: TypeEncoding,
    /// Valid on single-field structs: forward to that field with no framing.
    pub transparent: bool,
    /// Valid on enums of unit variants only: a bare tag with no wrapper.
    pub index_only: bool,
}

/// The type of a value, as far as the wire format is concerned.
#[derive(Debug)]
pub enum Shape {
    UInt,
    Bool,
    /// An owned byte string.
    Bytes,
    /// An owned text string.
    Text,
    /// A byte string that borrows from the input buffer.
    BorrowedBytes,
    /// A text string that borrows from the input buffer.
    BorrowedText,
    Struct(StructSpec),
    Enum(EnumSpec),
}

#[derive(Debug)]
pub struct StructSpec {
    pub name: String,
    pub attrs: TypeAttributes,
    pub fields: Vec<FieldSpec>,
}

#[derive(Debug)]
pub struct EnumSpec {
    pub name: String,
    pub attrs: TypeAttributes,
    pub variants: Vec<VariantSpec>,
}

/// A field's codec: the default one of its shape, or an injected override
/// for either direction, which reads or writes the field as another shape.
#[derive(Debug)]
pub enum Codec {
    Default,
    Custom { encode: Option<Box<Shape>>, decode: Option<Box<Shape>> },
}

#[derive(Debug)]
pub struct FieldSpec {
    /// The wire key: array position or map key.
    pub index: u32,
    pub name: String,
    /// Whether the field may be absent (an `Option`-shaped field).
    pub optional: bool,
    pub codec: Codec,
    pub shape: Shape,
}

#[derive(Debug)]
pub enum VariantKind {
    Unit,
    Tuple(Vec<FieldSpec>),
    Named(Vec<FieldSpec>),
}

#[derive(Debug)]
pub struct VariantSpec {
    /// The wire tag.
    pub index: u32,
    pub name: String,
    pub kind: VariantKind,
    /// Overrides the enum's encoding for this variant's fields.
    pub encoding: Option<TypeEncoding>,
}

/// The shape a field is read as.
pub open spec fn decode_shape(f: FieldSpec) -> Shape {
    match f.codec {
        Codec::Custom { decode: Some(s), .. } => *s,
        _ => f.shape,
    }
}

/// The shape a field is written as.
pub open spec fn encode_shape(f: FieldSpec) -> Shape {
    match f.codec {
        Codec::Custom { encode: Some(s), .. } => *s,
        _ => f.shape,
    }
}

/// The position of the first field with wire index `key`, if any.
pub open spec fn find_field(fields: Seq<FieldSpec>, key: int) -> Option<int>
    decreases fields.len(),
{
    if fields.len() == 0 {
        None
    } else {
        match find_field(fields.drop_last(), key) {
            Some(k) => Some(k),
            None => if fields.last().index == key { Some(fields.len() - 1) } else { None },
        }
    }
}

/// The position of the first variant with tag `tag`, if any.
pub open spec fn find_variant(vs: Seq<VariantSpec>, tag: int) -> Option<int>
    decreases vs.len(),
{
    if vs.len() == 0 {
        None
    } else {
        match find_variant(vs.drop_last(), tag) {
            Some(k) => Some(k),
            None => if vs.last().index == tag { Some(vs.len() - 1) } else { None },
        }
    }
}

pub proof fn lemma_find_field(fields: Seq<FieldSpec>, key: int)
    ensures
        match find_field(fields, key) {
            Some(k) => 0 <= k < fields.len() && fields[k].index == key
                && forall|j: int| 0 <= j < k ==> fields[j].index != key,
            None => forall|j: int| 0 <= j < fields.len() ==> fields[j].index != key,
        },
    decreases fields.len(),
{
    if fields.len() > 0 {
        lemma_find_field(fields.drop_last(), key);
        assert(forall|j: int| 0 <= j < fields.len() - 1 ==> fields.drop_last()[j] == fields[j]);
    }
}

pub proof fn lemma_find_variant(vs: Seq<VariantSpec>, tag: int)
    ensures
        match find_variant(vs, tag) {
            Some(k) => 0 <= k < vs.len() && vs[k].index == tag
                && forall|j: int| 0 <= j < k ==> vs[j].index != tag,
            None => forall|j: int| 0 <= j < vs.len() ==> vs[j].index != tag,
        },
    decreases vs.len(),
{
    if vs.len() > 0 {
        lemma_find_variant(vs.drop_last(), tag);
        assert(forall|j: int| 0 <= j < vs.len() - 1 ==> vs.drop_last()[j] == vs[j]);
    }
}

/// Looks up the field with wire index `key`.
pub fn field_position(fields: &Vec<FieldSpec>, key: u64) -> (r: Option<usize>)
    ensures
        r matches Some(k) ==> find_field(fields@, key as int) == Some(k as int),
        r is None ==> find_field(fields@, key as int) is None,
{
    proof { lemma_find_field(fields@, key as int); }
    let mut i: usize = 0;
    while i < fields.len()
        invariant
            i <= fields@.len(),
            forall|j: int| 0 <= j < i ==> fields@[j].index != key,
        decreases fields.len() - i,
    {
        if fields[i].index as u64 == key {
            proof {
                if find_field(fields@, key as int) != Some(i as int) {
                    lemma_find_field(fields@, key as int);
                }
            }
            return Some(i);
        }
        i = i + 1;
    }
    None
}

/// Looks up the variant with tag `tag`.
pub fn variant_position(vs: &Vec<VariantSpec>, tag: u32) -> (r: Option<usize>)
    ensures
        r matches Some(k) ==> find_variant(vs@, tag as int) == Some(k as int),
        r is None ==> find_variant(vs@, tag as int) is None,
{
    proof { lemma_find_variant(vs@, tag as int); }
    let mut i: usize = 0;
    while i < vs.len()
        invariant
            i <= vs@.len(),
            forall|j: int| 0 <= j < i ==> vs@[j].index != tag,
        decreases vs.len() - i,
    {
        if vs[i].index == tag {
            proof {
                lemma_find_variant(vs@, tag as int);
            }
            return Some(i);
        }
        i = i + 1;
    }
    None
}

/// The position of the field with the least wire index at or above `lo`
/// (the first such field where several share it), if any.
pub open spec fn least_from(fields: Seq<FieldSpec>, lo: int) -> Option<int>
    decreases fields.len(),
{
    if fields.len() == 0 {
        None
    } else {
        let l = fields.len() - 1;
        match least_from(fields.drop_last(), lo) {
            None => if fields[l].index >= lo { Some(l) } else { None },
            Some(k) => if fields[l].index >= lo && fields[l].index < fields[k].index { Some(l) } else { Some(k) },
        }
    }
}

/// What makes `k` the answer of `least_from(fields, lo)`.
pub open spec fn is_least_from(fields: Seq<FieldSpec>, lo: int, k: int) -> bool {
    &&& 0 <= k < fields.len()
    &&& fields[k].index >= lo
    &&& forall|j: int| 0 <= j < fields.len() && fields[j].index >= lo ==> fields[j].index >= fields[k].index
    &&& forall|j: int| 0 <= j < k && fields[j].index >= lo ==> fields[j].index > fields[k].index
}

pub proof fn lemma_least_from(fields: Seq<FieldSpec>, lo: int)
    ensures
        match least_from(fields, lo) {
            Some(k) => is_least_from(fields, lo, k),
            None => forall|j: int| 0 <= j < fields.len() ==> fields[j].index < lo,
        },
    decreases fields.len(),
{
    if fields.len() > 0 {
        lemma_least_from(fields.drop_last(), lo);
        assert(forall|j: int| 0 <= j < fields.len() - 1 ==> fields.drop_last()[j] == fields[j]);
    }
}

pub proof fn lemma_least_unique(fields: Seq<FieldSpec>, lo: int, k: int)
    requires
        is_least_from(fields, lo, k),
    ensures
        least_from(fields, lo) == Some(k),
{
    lemma_least_from(fields, lo);
}

/// Finds the field with the least wire index at or above `lo`.
pub fn least_field_from(fields: &Vec<FieldSpec>, lo: u64) -> (r: Option<usize>)
    ensures
        r matches Some(k) ==> least_from(fields@, lo as int) == Some(k as int),
        r is None ==> least_from(fields@, lo as int) is None,
{
    let mut best: Option<usize> = None;
    let mut i: usize = 0;
    while i < fields.len()
        invariant
            i <= fields@.len(),
            best is None ==> forall|j: int| 0 <= j < i ==> fields@[j].index < lo,
            best matches Some(k) ==> k < i && is_least_from(fields@.take(i as int), lo as int, k as int),
        decreases fields.len() - i,
    {
        let ix = fields[i].index as u64;
        if ix >= lo {
            match best {
                None => {
                    best = Some(i);
                },
                Some(k) => {
                    if ix < fields[k].index as u64 {
                        best = Some(i);
                    }
                },
            }
        }
        i = i + 1;
        proof {
            assert(forall|j: int| 0 <= j < i ==> fields@.take(i as int)[j] == fields@[j]);
        }
    }
    proof {
        assert(fields@.take(fields@.len() as int) =~= fields@);
        lemma_least_from(fields@, lo as int);
        if let Some(k) = best {
            lemma_least_unique(fields@, lo as int, k as int);
        }
    }
    best
}

/// Every wire index is below the number of fields: with distinct indices,
/// they are exactly the array positions `0 .. n`.
pub open spec fn dense(fields: Seq<FieldSpec>) -> bool {
    forall|k: int| 0 <= k < fields.len() ==> fields[k].index < fields.len()
}

/// Whether every wire index is below the number of fields.
pub fn check_dense(fields: &Vec<FieldSpec>) -> (r: bool)
    ensures
        r == dense(fields@),
{
    let mut k: usize = 0;
    while k < fields.len()
        invariant
            k <= fields@.len(),
            forall|j: int| 0 <= j < k ==> fields@[j].index < fields@.len(),
        decreases fields.len() - k,
    {
        if fields[k].index as usize >= fields.len() {
            return false;
        }
        k = k + 1;
    }
    true
}

/// No two fields share a wire index.
pub open spec fn distinct_fields(fields: Seq<FieldSpec>) -> bool {
    forall|j: int, k: int| 0 <= j < k < fields.len() ==> fields[j].index != fields[k].index
}

/// No two variants share a tag.
pub open spec fn distinct_variants(vs: Seq<VariantSpec>) -> bool {
    forall|j: int, k: int| 0 <= j < k < vs.len() ==> vs[j].index != vs[k].index
}

pub open spec fn has_custom_decode(f: FieldSpec) -> bool {
    f.codec matches Codec::Custom { decode: Some(_), .. }
}

/// A struct definition the codec accepts: distinct field indices; in array
/// framing the indices are the positions `0 .. n`; and a transparent struct
/// has exactly one field, with no custom decode.
pub open spec fn struct_valid(ss: StructSpec) -> bool {
    &&& distinct_fields(ss.fields@)
    &&& ss.attrs.transparent ==> ss.fields@.len() == 1 && !has_custom_decode(ss.fields@[0])
    &&& !ss.attrs.transparent && ss.attrs.encoding == TypeEncoding::Array ==> dense(ss.fields@)
}

pub open spec fn distinct_message() -> Seq<char> {
    "field indices must be distinct"@
}

pub open spec fn one_field_message() -> Seq<char> {
    "transparent requires a struct with one field"@
}

pub open spec fn transparent_decode_message() -> Seq<char> {
    "a custom decode is not allowed with transparent"@
}

pub open spec fn gap_message() -> Seq<char> {
    "array framing needs the indices 0 .. n"@
}

/// The fields of a variant, if it has any.
pub open spec fn variant_fields(v: VariantSpec) -> Seq<FieldSpec> {
    match v.kind {
        VariantKind::Unit => seq![],
        VariantKind::Tuple(fs) => fs@,
        VariantKind::Named(fs) => fs@,
    }
}

/// The framing of the fields of variant `k`.
pub open spec fn variant_encoding(es: EnumSpec, k: int) -> TypeEncoding {
    match es.variants@[k].encoding {
        Some(e) => e,
        None => es.attrs.encoding,
    }
}

/// An enum definition the codec accepts: distinct tags, distinct field
/// indices within each variant (the positions `0 .. n` in array framing),
/// and only unit variants when index-only.
pub open spec fn enum_valid(es: EnumSpec) -> bool {
    &&& distinct_variants(es.variants@)
    &&& forall|k: int| 0 <= k < es.variants@.len() ==> distinct_fields(#[trigger] variant_fields(es.variants@[k]))
    &&& forall|k: int| 0 <= k < es.variants@.len() && variant_encoding(es, k) == TypeEncoding::Array
        ==> dense(#[trigger] variant_fields(es.variants@[k]))
    &&& es.attrs.index_only ==> forall|k: int| 0 <= k < es.variants@.len() ==> (#[trigger] es.variants@[k]).kind is Unit
}

/// Whether the fields have distinct indices.
pub fn check_distinct_fields(fields: &Vec<FieldSpec>) -> (r: bool)
    ensures
        r == distinct_fields(fields@),
{
    let mut k: usize = 0;
    while k < fields.len()
        invariant
            k <= fields@.len(),
            forall|a: int, b: int| 0 <= a < b < k ==> fields@[a].index != fields@[b].index,
        decreases fields.len() - k,
    {
        let mut j: usize = 0;
        while j < k
            invariant
                j <= k < fields@.len(),
                forall|a: int, b: int| 0 <= a < b < k ==> fields@[a].index != fields@[b].index,
                forall|a: int| 0 <= a < j ==> fields@[a].index != fields@[k as int].index,
            decreases k - j,
        {
            if fields[j].index == fields[k].index {
                return false;
            }
            j = j + 1;
        }
        k = k + 1;
    }
    true
}

/// Checks a struct definition, as when it is built. The first rule broken,
/// in the order of `struct_valid`, gives the message.
pub fn check_struct(ss: &StructSpec) -> (r: Result<(), Error>)
    ensures
        struct_valid(*ss) ==> r is Ok,
        !distinct_fields(ss.fields@) ==> (r matches Err(e) && e@ == ErrorModel::Message(distinct_message())),
        distinct_fields(ss.fields@) && ss.attrs.transparent && ss.fields@.len() != 1
            ==> (r matches Err(e) && e@ == ErrorModel::Message(one_field_message())),
        distinct_fields(ss.fields@) && ss.attrs.transparent && ss.fields@.len() == 1 && has_custom_decode(ss.fields@[0])
            ==> (r matches Err(e) && e@ == ErrorModel::Message(transparent_decode_message())),
        distinct_fields(ss.fields@) && !ss.attrs.transparent && ss.attrs.encoding == TypeEncoding::Array
            && !dense(ss.fields@) ==> (r matches Err(e) && e@ == ErrorModel::Message(gap_message())),
{
    if !check_distinct_fields(&ss.fields) {
        return Err(Error::Message(String::from_str("field indices must be distinct")));
    }
    if ss.attrs.transparent {
        if ss.fields.len() != 1 {
            return Err(Error::Message(String::from_str("transparent requires a struct with one field")));
        }
        if let Codec::Custom { decode: Some(_), .. } = &ss.fields[0].codec {
            return Err(Error::Message(String::from_str("a custom decode is not allowed with transparent")));
        }
    } else if let TypeEncoding::Array = ss.attrs.encoding {
        if !check_dense(&ss.fields) {
            return Err(Error::Message(String::from_str("array framing needs the indices 0 .. n")));
        }
    }
    Ok(())
}

/// Checks an enum definition, as when it is built.
pub fn check_enum(es: &EnumSpec) -> (r: Result<(), Error>)
    ensures
        r is Ok <==> enum_valid(*es),
{
    let vs = &es.variants;
    let mut k: usize = 0;
    while k < vs.len()
        invariant
            vs@ == es.variants@,
            k <= vs@.len(),
            forall|a: int, b: int| 0 <= a < b < k ==> vs@[a].index != vs@[b].index,
            forall|a: int| 0 <= a < k ==> distinct_fields(#[trigger] variant_fields(vs@[a])),
            forall|a: int| 0 <= a < k && variant_encoding(*es, a) == TypeEncoding::Array
                ==> dense(#[trigger] variant_fields(vs@[a])),
            es.attrs.index_only ==> forall|a: int| 0 <= a < k ==> (#[trigger] vs@[a]).kind is Unit,
        decreases vs.len() - k,
    {
        let mut j: usize = 0;
        while j < k
            invariant
                vs@ == es.variants@,
                j <= k < vs@.len(),
                forall|a: int| 0 <= a < j ==> vs@[a].index != vs@[k as int].index,
            decreases k - j,
        {
            if vs[j].index == vs[k].index {
                assert(!distinct_variants(es.variants@)) by {
                    assert(es.variants@[j as int].index == es.variants@[k as int].index);
                }
                return Err(Error::Message(String::from_str("variant indices must be distinct")));
            }
            j = j + 1;
        }
        match &vs[k].kind {
            VariantKind::Unit => {},
            VariantKind::Tuple(fs) | VariantKind::Named(fs) => {
                if es.attrs.index_only {
                    assert(!(es.variants@[k as int].kind is Unit));
                    return Err(Error::Message(String::from_str("index_only requires unit variants")));
                }
                if !check_distinct_fields(fs) {
                    assert(!distinct_fields(variant_fields(es.variants@[k as int])));
                    return Err(Error::Message(String::from_str("field indices must be distinct")));
                }
                let enc = match vs[k].encoding {
                    Some(e) => e,
                    None => es.attrs.encoding,
                };
                if let TypeEncoding::Array = enc {
                    if !check_dense(fs) {
                        assert(variant_encoding(*es, k as int) == TypeEncoding::Array);
                        assert(!dense(variant_fields(es.variants@[k as int])));
                        return Err(Error::Message(String::from_str("array framing needs the indices 0 .. n")));
                    }
                }
            },
        }
        assert(distinct_fields(variant_fields(vs@[k as int])));
        assert(variant_encoding(*es, k as int) == TypeEncoding::Array ==> dense(variant_fields(vs@[k as int])));
        k = k + 1;
    }
    Ok(())
}

} // verus!
