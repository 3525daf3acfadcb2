//! Properties that relate encoding and decoding.
use vstd::prelude::*;
use crate::decode::{
    conclude, dec_enum, dec_field, dec_fields, dec_value, dec_variant, fill_definite, fill_indefinite,
    first_empty, init_slots,
    read_u32, step, Slots,
};
use crate::encode::{enc_field, enc_fields, enc_sorted, enc_value, entry_key, string_bytes};
use crate::error::ErrorModel;
use crate::schema::{
    distinct_fields, find_field, find_variant, is_least_from, least_from, lemma_find_field, lemma_find_variant,
    lemma_least_from, Codec, EnumSpec, FieldSpec, Shape, TypeAttributes, TypeEncoding, VariantKind, VariantSpec,
};
use crate::value::ValueModel;
use crate::wire::{
    head, info_for, lemma_head_round_trip, parse_head, skip_item, skip_items, Head, MAJOR_ARRAY, MAJOR_BYTES, MAJOR_MAP,
    MAJOR_TEXT, MAJOR_UINT, NULL_BYTE, BREAK_BYTE,
};

verus! {

/// The shape a field is read and written as, where its codec is symmetric.
pub open spec fn field_shape(f: FieldSpec) -> Shape {
    match f.codec {
        Codec::Custom { decode: Some(s), .. } => *s,
        _ => f.shape,
    }
}

/// Whether values of `sh` can be written as `null`: a transparent struct
/// whose field is optional, directly or through another transparent struct.
pub open spec fn nullable(sh: Shape) -> bool
    decreases sh,
{
    match sh {
        Shape::Struct(ss) => ss.attrs.transparent && ss.fields@.len() == 1 && (ss.fields@[0].optional
            || match ss.fields@[0].codec {
            Codec::Custom { encode: Some(s), .. } => nullable(*s),
            _ => nullable(ss.fields@[0].shape),
        }),
        _ => false,
    }
}

/// A schema that reads back what it writes: field indices are distinct
/// within every struct and variant, and each custom codec reads the shape it
/// writes. An optional field's shape must not itself be written as `null`,
/// or its absence and its value could not be told apart.
pub open spec fn sound(sh: Shape) -> bool
    decreases sh, 0int, 0int,
{
    match sh {
        Shape::Struct(ss) => if ss.attrs.transparent {
            ss.fields@.len() == 1 && field_sound(ss.fields@[0])
        } else {
            distinct_fields(ss.fields@) && all_fields_sound(ss.fields@, 0)
        },
        Shape::Enum(es) => all_variants_sound(es.variants@, es.attrs.encoding, 0),
        _ => true,
    }
}

/// A field whose codec reads what it writes, with a sound shape.
pub open spec fn field_sound(f: FieldSpec) -> bool
    decreases f, 0int, 0int,
{
    &&& match f.codec {
        Codec::Default => true,
        Codec::Custom { encode, decode } => encode == decode,
    }
    &&& match f.codec {
        Codec::Custom { decode: Some(s), .. } => sound(*s) && (f.optional ==> !nullable(*s)),
        _ => sound(f.shape) && (f.optional ==> !nullable(f.shape)),
    }
}

/// Fields from number `k` on are sound.
pub open spec fn all_fields_sound(fields: Seq<FieldSpec>, k: int) -> bool
    decreases fields, 1int, fields.len() - k,
{
    if k < 0 || k >= fields.len() {
        true
    } else {
        field_sound(fields[k]) && all_fields_sound(fields, k + 1)
    }
}

/// Variants from number `k` on have sound fields.
pub open spec fn all_variants_sound(vs: Seq<VariantSpec>, enc: TypeEncoding, k: int) -> bool
    decreases vs, 1int, vs.len() - k,
{
    if k < 0 || k >= vs.len() {
        true
    } else {
        let here = match vs[k].kind {
            VariantKind::Unit => true,
            VariantKind::Tuple(fs) => distinct_fields(fs@) && all_fields_sound(fs@, 0),
            VariantKind::Named(fs) => distinct_fields(fs@) && all_fields_sound(fs@, 0),
        };
        here && all_variants_sound(vs, enc, k + 1)
    }
}

proof fn lemma_all_fields_sound(fields: Seq<FieldSpec>, k0: int, k: int)
    requires
        all_fields_sound(fields, k0),
        0 <= k0 <= k < fields.len(),
    ensures
        field_sound(fields[k]),
    decreases k - k0,
{
    if k0 < k {
        lemma_all_fields_sound(fields, k0 + 1, k);
    }
}

proof fn lemma_all_variants_sound(vs: Seq<VariantSpec>, enc: TypeEncoding, k0: int, k: int)
    requires
        all_variants_sound(vs, enc, k0),
        0 <= k0 <= k < vs.len(),
    ensures
        all_variants_sound(vs, enc, k),
    decreases k - k0,
{
    if k0 < k {
        lemma_all_variants_sound(vs, enc, k0 + 1, k);
    }
}

/// `b` stands in `inp` at `p`.
pub open spec fn placed(inp: Seq<u8>, p: int, b: Seq<u8>) -> bool {
    0 <= p && p + b.len() <= inp.len() && inp.subrange(p, p + b.len()) == b
}

proof fn lemma_split(inp: Seq<u8>, p: int, x: Seq<u8>, y: Seq<u8>)
    requires
        placed(inp, p, x + y),
    ensures
        placed(inp, p, x),
        placed(inp, p + x.len(), y),
{
    assert(inp.subrange(p, p + x.len()) =~= (x + y).subrange(0, x.len() as int));
    assert((x + y).subrange(0, x.len() as int) =~= x);
    assert(inp.subrange(p + x.len(), p + x.len() + y.len()) =~= (x + y).subrange(x.len() as int, (x + y).len() as int));
    assert((x + y).subrange(x.len() as int, (x + y).len() as int) =~= y);
}

proof fn lemma_head_placed(major: u8, n: u64, inp: Seq<u8>, p: int)
    requires
        major < 8,
        placed(inp, p, head(major, n)),
    ensures
        parse_head(inp, p) == Ok::<(Head, int), ErrorModel>((Head { major, info: info_for(n), arg: n }, p + head(major, n).len())),
        info_for(n) < 28,
{
    lemma_head_round_trip(major, n, inp, p);
}

proof fn lemma_head_first(major: u8, n: u64)
    requires
        major < 8,
    ensures
        head(major, n).len() >= 1,
        head(major, n)[0] == major * 32 + info_for(n),
        info_for(n) < 28,
{
}

/// What a value encodes to is not empty, and starts with `null` only where
/// its shape is nullable.
pub proof fn lemma_not_null(sh: Shape, v: ValueModel)
    requires
        enc_value(sh, v) is Some,
        !nullable(sh),
    ensures
        enc_value(sh, v).unwrap().len() > 0,
        enc_value(sh, v).unwrap()[0] != NULL_BYTE,
    decreases sh,
{
    let b = enc_value(sh, v).unwrap();
    match (sh, v) {
        (Shape::UInt, ValueModel::UInt(n)) => {
            lemma_head_first(MAJOR_UINT, n);
        },
        (Shape::Bool, ValueModel::Bool(x)) => {},
        (Shape::Bytes, ValueModel::Bytes(c)) => {
            lemma_head_first(MAJOR_BYTES, c.len() as u64);
            assert(b[0] == head(MAJOR_BYTES, c.len() as u64)[0]);
        },
        (Shape::BorrowedBytes, ValueModel::BorrowedBytes(c)) => {
            lemma_head_first(MAJOR_BYTES, c.len() as u64);
            assert(b[0] == head(MAJOR_BYTES, c.len() as u64)[0]);
        },
        (Shape::Text, ValueModel::Text(c)) => {
            lemma_head_first(MAJOR_TEXT, c.len() as u64);
            assert(b[0] == head(MAJOR_TEXT, c.len() as u64)[0]);
        },
        (Shape::BorrowedText, ValueModel::BorrowedText(c)) => {
            lemma_head_first(MAJOR_TEXT, c.len() as u64);
            assert(b[0] == head(MAJOR_TEXT, c.len() as u64)[0]);
        },
        (Shape::Struct(ss), ValueModel::Record(vs)) => {
            if ss.attrs.transparent {
                let f = ss.fields@[0];
                let s = match f.codec {
                    Codec::Custom { encode: Some(s), .. } => *s,
                    _ => f.shape,
                };
                assert(enc_field(f, vs[0]) == enc_value(s, vs[0]));
                lemma_not_null(s, vs[0]);
            } else {
                let major = if ss.attrs.encoding == TypeEncoding::Array { MAJOR_ARRAY } else { MAJOR_MAP };
                let h = head(major, ss.fields@.len() as u64);
                lemma_head_first(major, ss.fields@.len() as u64);
                assert(enc_value(sh, v) == enc_fields(ss.fields@, ss.attrs.encoding, vs));
                let e = enc_sorted(ss.fields@, ss.attrs.encoding, vs, 0).unwrap().0;
                assert(b == h + e);
                assert(b[0] == h[0]);
            }
        },
        (Shape::Enum(es), ValueModel::Variant(t, vs)) => {
            lemma_find_variant(es.variants@, t as int);
            let frame = head(MAJOR_ARRAY, 2);
            lemma_head_first(MAJOR_UINT, t as u64);
            lemma_head_first(MAJOR_ARRAY, 2);
            if !es.attrs.index_only {
                assert(b.subrange(0, frame.len() as int) =~= frame);
                assert(b[0] == frame[0]);
            }
        },
        _ => {},
    }
}

/// The slots once every field with an index below `lo` has been read.
pub open spec fn partial(fields: Seq<FieldSpec>, vs: Seq<ValueModel>, lo: int) -> Slots {
    Slots {
        filled: Seq::new(fields.len(), |k: int| fields[k].index < lo || fields[k].optional),
        vals: Seq::new(fields.len(), |k: int| if fields[k].index < lo { vs[k] } else { ValueModel::Null }),
    }
}

proof fn lemma_none_empty(filled: Seq<bool>, k: int)
    requires
        forall|j: int| 0 <= j < filled.len() ==> filled[j],
    ensures
        first_empty(filled, k) is None,
    decreases filled.len() - k,
{
    if 0 <= k < filled.len() {
        lemma_none_empty(filled, k + 1);
    }
}

/// Decoding a value's encoding gives back the value, and ends right after it.
proof fn lemma_value_round_trip(sh: Shape, v: ValueModel, inp: Seq<u8>, p: int)
    requires
        sound(sh),
        enc_value(sh, v) is Some,
        placed(inp, p, enc_value(sh, v).unwrap()),
    ensures
        dec_value(sh, inp, p) == Ok::<(ValueModel, int), ErrorModel>((v, p + enc_value(sh, v).unwrap().len())),
    decreases sh, 0int, 0int,
{
    let b = enc_value(sh, v).unwrap();
    match (sh, v) {
        (Shape::UInt, ValueModel::UInt(n)) => {
            lemma_head_placed(MAJOR_UINT, n, inp, p);
        },
        (Shape::Bool, ValueModel::Bool(x)) => {
            assert(inp[p] == b[0]);
        },
        (Shape::Bytes, ValueModel::Bytes(s)) => {
            lemma_string_round_trip(MAJOR_BYTES, s, inp, p);
        },
        (Shape::BorrowedBytes, ValueModel::BorrowedBytes(s)) => {
            lemma_string_round_trip(MAJOR_BYTES, s, inp, p);
        },
        (Shape::Text, ValueModel::Text(s)) => {
            lemma_string_round_trip(MAJOR_TEXT, s, inp, p);
        },
        (Shape::BorrowedText, ValueModel::BorrowedText(s)) => {
            lemma_string_round_trip(MAJOR_TEXT, s, inp, p);
        },
        (Shape::Struct(ss), ValueModel::Record(vs)) => {
            if ss.attrs.transparent {
                lemma_field_round_trip(ss.fields@[0], vs[0], inp, p);
                assert(seq![vs[0]] =~= vs);
            } else {
                lemma_fields_round_trip(ss.fields@, ss.attrs.encoding, ss.name@ + "::"@, vs, inp, p);
            }
        },
        (Shape::Enum(es), ValueModel::Variant(t, vs)) => {
            lemma_enum_round_trip(es, t, vs, inp, p);
        },
        _ => {},
    }
}

proof fn lemma_string_round_trip(major: u8, s: Seq<u8>, inp: Seq<u8>, p: int)
    requires
        major == MAJOR_BYTES || major == MAJOR_TEXT,
        string_bytes(major, s) is Some,
        placed(inp, p, string_bytes(major, s).unwrap()),
    ensures
        crate::decode::read_string(inp, p, major) == Ok::<(int, int), ErrorModel>((
            p + head(major, s.len() as u64).len(),
            p + string_bytes(major, s).unwrap().len(),
        )),
        inp.subrange(p + head(major, s.len() as u64).len(), p + string_bytes(major, s).unwrap().len()) == s,
{
    let h = head(major, s.len() as u64);
    lemma_split(inp, p, h, s);
    lemma_head_placed(major, s.len() as u64, inp, p);
}

/// Decoding the encoding of all fields gives back their values.
proof fn lemma_fields_round_trip(
    fields: Seq<FieldSpec>,
    enc: TypeEncoding,
    prefix: Seq<char>,
    vs: Seq<ValueModel>,
    inp: Seq<u8>,
    p: int,
)
    requires
        distinct_fields(fields),
        all_fields_sound(fields, 0),
        enc_fields(fields, enc, vs) is Some,
        placed(inp, p, enc_fields(fields, enc, vs).unwrap()),
    ensures
        dec_fields(fields, enc, prefix, inp, p)
            == Ok::<(Seq<ValueModel>, int), ErrorModel>((vs, p + enc_fields(fields, enc, vs).unwrap().len())),
    decreases fields, 2int, 0int,
{
    let major = if enc == TypeEncoding::Array { MAJOR_ARRAY } else { MAJOR_MAP };
    let n = fields.len();
    let h = head(major, n as u64);
    let e = enc_sorted(fields, enc, vs, 0).unwrap().0;
    lemma_split(inp, p, h, e);
    lemma_head_placed(major, n as u64, inp, p);
    assert(init_slots(fields).filled =~= partial(fields, vs, 0).filled);
    assert(init_slots(fields).vals =~= partial(fields, vs, 0).vals);
    lemma_fill_round_trip(fields, enc, vs, inp, p + h.len(), 0, 0, n as nat);
    let fin = partial(fields, vs, 0x1_0000_0000);
    lemma_none_empty(fin.filled, 0);
    assert(fin.vals =~= vs);
}

/// Reading the entries the encoder wrote for the fields with index `lo` or
/// above, as entries `i ..` of a definite container of `n` entries.
proof fn lemma_fill_round_trip(
    fields: Seq<FieldSpec>,
    enc: TypeEncoding,
    vs: Seq<ValueModel>,
    inp: Seq<u8>,
    p: int,
    lo: int,
    i: nat,
    n: nat,
)
    requires
        distinct_fields(fields),
        all_fields_sound(fields, 0),
        vs.len() == fields.len(),
        0 <= lo <= 0x1_0000_0000,
        enc == TypeEncoding::Array ==> i == lo,
        enc_sorted(fields, enc, vs, lo) is Some,
        i + enc_sorted(fields, enc, vs, lo).unwrap().1 == n,
        placed(inp, p, enc_sorted(fields, enc, vs, lo).unwrap().0),
    ensures
        fill_definite(fields, enc, inp, p, i, n, partial(fields, vs, lo)) == Ok::<(Slots, int), ErrorModel>((
            partial(fields, vs, 0x1_0000_0000),
            p + enc_sorted(fields, enc, vs, lo).unwrap().0.len(),
        )),
    decreases fields, 1int, 0x1_0000_0000 - lo,
{
    lemma_least_from(fields, lo);
    if lo > u32::MAX || least_from(fields, lo) is None {
        assert(partial(fields, vs, lo).filled =~= partial(fields, vs, 0x1_0000_0000).filled);
        assert(partial(fields, vs, lo).vals =~= partial(fields, vs, 0x1_0000_0000).vals);
    } else {
        let k = least_from(fields, lo).unwrap();
        let f = fields[k];
        let ix = f.index as int;
        let key = entry_key(f, enc);
        let a = enc_field(f, vs[k]).unwrap();
        let (rest, c) = enc_sorted(fields, enc, vs, ix + 1).unwrap();
        assert(enc_sorted(fields, enc, vs, lo).unwrap().0 == key + a + rest);
        lemma_split(inp, p, key + a, rest);
        lemma_split(inp, p, key, a);
        lemma_find_field(fields, ix);
        assert(find_field(fields, ix) == Some(k));
        if enc == TypeEncoding::Keyed {
            lemma_head_placed(MAJOR_UINT, f.index as u64, inp, p);
            assert(read_u32(inp, p) == Ok::<(u32, int), ErrorModel>((f.index, p + key.len())));
        } else {
            assert(key =~= Seq::<u8>::empty());
        }
        lemma_all_fields_sound(fields, 0, k);
        lemma_field_round_trip(f, vs[k], inp, p + key.len());
        let s0 = partial(fields, vs, lo);
        let s1 = partial(fields, vs, ix + 1);
        assert(s1.filled =~= s0.filled.update(k, true));
        assert(s1.vals =~= s0.vals.update(k, vs[k]));
        assert(step(fields, enc, inp, p, i, s0) == Ok::<(Slots, int), ErrorModel>((s1, p + key.len() + a.len())));
        lemma_fill_round_trip(fields, enc, vs, inp, p + key.len() + a.len(), ix + 1, i + 1, n);
    }
}

/// Decoding one field's encoding gives back its value.
proof fn lemma_field_round_trip(f: FieldSpec, v: ValueModel, inp: Seq<u8>, p: int)
    requires
        field_sound(f),
        enc_field(f, v) is Some,
        placed(inp, p, enc_field(f, v).unwrap()),
    ensures
        dec_field(f, inp, p) == Ok::<(ValueModel, int), ErrorModel>((v, p + enc_field(f, v).unwrap().len())),
    decreases f, 0int, 0int,
{
    let b = enc_field(f, v).unwrap();
    if f.optional && v == ValueModel::Null {
        assert(inp[p] == b[0]);
    } else {
        let s = field_shape(f);
        assert(enc_field(f, v) == enc_value(s, v));
        if f.optional {
            lemma_not_null(s, v);
            assert(inp[p] == b[0]);
        }
        lemma_value_round_trip(s, v, inp, p);
    }
}

/// Decoding an enum value's encoding gives back the value.
proof fn lemma_enum_round_trip(es: EnumSpec, t: u32, vs: Seq<ValueModel>, inp: Seq<u8>, p: int)
    requires
        sound(Shape::Enum(es)),
        enc_value(Shape::Enum(es), ValueModel::Variant(t, vs)) is Some,
        placed(inp, p, enc_value(Shape::Enum(es), ValueModel::Variant(t, vs)).unwrap()),
    ensures
        dec_enum(es, inp, p) == Ok::<(ValueModel, int), ErrorModel>((
            ValueModel::Variant(t, vs),
            p + enc_value(Shape::Enum(es), ValueModel::Variant(t, vs)).unwrap().len(),
        )),
    decreases es, 0int, 0int,
{
    let b = enc_value(Shape::Enum(es), ValueModel::Variant(t, vs)).unwrap();
    lemma_find_variant(es.variants@, t as int);
    let k = find_variant(es.variants@, t as int).unwrap();
    let var = es.variants@[k];
    lemma_all_variants_sound(es.variants@, es.attrs.encoding, 0, k);
    let enc = match var.encoding {
        Some(e) => e,
        None => es.attrs.encoding,
    };
    let tag = head(MAJOR_UINT, t as u64);
    if es.attrs.index_only {
        lemma_head_placed(MAJOR_UINT, t as u64, inp, p);
        assert(read_u32(inp, p) == Ok::<(u32, int), ErrorModel>((t, p + tag.len())));
        assert(seq![] =~= vs);
    } else {
        let frame = head(MAJOR_ARRAY, 2);
        let payload = match var.kind {
            VariantKind::Unit => seq![NULL_BYTE],
            VariantKind::Tuple(fs) => enc_fields(fs@, enc, vs).unwrap(),
            VariantKind::Named(fs) => enc_fields(fs@, enc, vs).unwrap(),
        };
        assert(b == frame + tag + payload);
        lemma_split(inp, p, frame + tag, payload);
        lemma_split(inp, p, frame, tag);
        lemma_head_placed(MAJOR_ARRAY, 2, inp, p);
        lemma_head_placed(MAJOR_UINT, t as u64, inp, p + frame.len());
        let r = p + frame.len() + tag.len();
        assert(read_u32(inp, p + frame.len()) == Ok::<(u32, int), ErrorModel>((t, r)));
        lemma_variant_payload(var, es.attrs, es.name@, enc, t, vs, payload, inp, r);
    }
}

/// Decoding the payload of a variant written by the encoder.
#[verifier::rlimit(40)]
proof fn lemma_variant_payload(
    var: VariantSpec,
    attrs: TypeAttributes,
    ename: Seq<char>,
    enc: TypeEncoding,
    t: u32,
    vs: Seq<ValueModel>,
    payload: Seq<u8>,
    inp: Seq<u8>,
    r: int,
)
    requires
        !attrs.index_only,
        var.index == t,
        enc == match var.encoding {
            Some(e) => e,
            None => attrs.encoding,
        },
        match var.kind {
            VariantKind::Unit => vs.len() == 0 && payload == seq![NULL_BYTE],
            VariantKind::Tuple(fs) => distinct_fields(fs@) && all_fields_sound(fs@, 0)
                && enc_fields(fs@, enc, vs) == Some(payload),
            VariantKind::Named(fs) => distinct_fields(fs@) && all_fields_sound(fs@, 0)
                && enc_fields(fs@, enc, vs) == Some(payload),
        },
        placed(inp, r, payload),
    ensures
        dec_variant(var, attrs, ename, inp, r)
            == Ok::<(ValueModel, int), ErrorModel>((ValueModel::Variant(t, vs), r + payload.len())),
    decreases var, 0int, 0int,
{
    match var.kind {
        VariantKind::Unit => {
            assert(inp[r] == inp.subrange(r, r + 1)[0]);
            assert(inp[r] == NULL_BYTE);
            assert(parse_head(inp, r) == Ok::<(Head, int), ErrorModel>((Head { major: 7, info: 22, arg: 22 }, r + 1)));
            assert(skip_item(inp, r) == Ok::<int, ErrorModel>(r + 1));
            assert(seq![] =~= vs);
        },
        VariantKind::Tuple(fs) => {
            lemma_fields_round_trip(fs@, enc, ename + "::"@ + var.name@ + "::"@, vs, inp, r);
        },
        VariantKind::Named(fs) => {
            lemma_fields_round_trip(fs@, enc, ename + "::"@ + var.name@ + "::"@, vs, inp, r);
        },
    }
}

/// Round trip: under a sound schema, decoding the bytes that encoding a
/// value produced gives back that value, and consumes exactly those bytes.
pub proof fn law_round_trip(sh: Shape, v: ValueModel)
    requires
        sound(sh),
        enc_value(sh, v) is Some,
    ensures
        dec_value(sh, enc_value(sh, v).unwrap(), 0)
            == Ok::<(ValueModel, int), ErrorModel>((v, enc_value(sh, v).unwrap().len() as int)),
{
    let b = enc_value(sh, v).unwrap();
    assert(b.subrange(0, b.len() as int) =~= b);
    lemma_value_round_trip(sh, v, b, 0);
}

/// Transparent identity: a transparent single-field struct is written exactly
/// as its field is, by the field's codec, and read back from those bytes.
pub proof fn law_transparent_identity(sh: Shape, v: ValueModel, inp: Seq<u8>, p: int)
    requires
        sh matches Shape::Struct(ss) && ss.attrs.transparent && ss.fields@.len() == 1,
    ensures
        enc_value(sh, ValueModel::Record(seq![v])) == enc_field(sh->Struct_0.fields@[0], v),
        dec_value(sh, inp, p) == match dec_field(sh->Struct_0.fields@[0], inp, p) {
            Ok((x, q)) => Ok((ValueModel::Record(seq![x]), q)),
            Err(e) => Err(e),
        },
{
    assert(seq![v][0] == v);
}

/// The start of an enum value with tag `t`: the two-element frame, unless
/// index-only, then the tag.
pub open spec fn enum_start(es: EnumSpec, t: u32) -> Seq<u8> {
    if es.attrs.index_only {
        head(MAJOR_UINT, t as u64)
    } else {
        head(MAJOR_ARRAY, 2) + head(MAJOR_UINT, t as u64)
    }
}

/// Unknown variants: an enum value whose tag no variant carries fails with
/// `UnknownVariant` where the enum is read directly. As the value of an
/// optional field of a struct (array or map framing, at any position, read
/// with the field's own or a custom decode shape) the field stays absent and
/// exactly one data item, the enum value, is skipped.
pub proof fn law_unknown_variant(
    es: EnumSpec,
    t: u32,
    fields: Seq<FieldSpec>,
    enc: TypeEncoding,
    k: int,
    i: nat,
    s: Slots,
    inp: Seq<u8>,
    p: int,
)
    requires
        find_variant(es.variants@, t as int) is None,
        0 <= k < fields.len(),
        placed(inp, p, entry_key(fields[k], enc) + enum_start(es, t)),
        find_field(fields, if enc == TypeEncoding::Array { i as int } else { fields[k].index as int }) == Some(k),
        fields[k].optional,
        field_shape(fields[k]) == Shape::Enum(es),
    ensures
        dec_value(Shape::Enum(es), inp, p + entry_key(fields[k], enc).len())
            == Err::<(ValueModel, int), ErrorModel>(ErrorModel::UnknownVariant(t)),
        step(fields, enc, inp, p, i, s) == match skip_item(inp, p + entry_key(fields[k], enc).len()) {
            Ok(r) => Ok((s, r)),
            Err(e) => Err::<(Slots, int), ErrorModel>(e),
        },
{
    let key = entry_key(fields[k], enc);
    lemma_split(inp, p, key, enum_start(es, t));
    let p1 = p + key.len();
    if enc == TypeEncoding::Keyed {
        lemma_head_placed(MAJOR_UINT, fields[k].index as u64, inp, p);
        assert(read_u32(inp, p) == Ok::<(u32, int), ErrorModel>((fields[k].index, p1)));
    } else {
        assert(key =~= Seq::<u8>::empty());
    }
    let tag = head(MAJOR_UINT, t as u64);
    lemma_head_first(MAJOR_UINT, t as u64);
    lemma_head_first(MAJOR_ARRAY, 2);
    if es.attrs.index_only {
        lemma_head_placed(MAJOR_UINT, t as u64, inp, p1);
        assert(read_u32(inp, p1) == Ok::<(u32, int), ErrorModel>((t, p1 + tag.len())));
        assert(inp[p1] == tag[0]);
    } else {
        let frame = head(MAJOR_ARRAY, 2);
        lemma_split(inp, p1, frame, tag);
        lemma_head_placed(MAJOR_ARRAY, 2, inp, p1);
        lemma_head_placed(MAJOR_UINT, t as u64, inp, p1 + frame.len());
        assert(read_u32(inp, p1 + frame.len()) == Ok::<(u32, int), ErrorModel>((t, p1 + frame.len() + tag.len())));
        assert(inp[p1] == frame[0]);
    }
    assert(dec_value(field_shape(fields[k]), inp, p1) == Err::<(ValueModel, int), ErrorModel>(ErrorModel::UnknownVariant(t)));
    assert(dec_field(fields[k], inp, p1) == Err::<(ValueModel, int), ErrorModel>(ErrorModel::UnknownVariant(t)));
}

proof fn lemma_first_empty_at(filled: Seq<bool>, k: int, m: int)
    requires
        0 <= k <= m < filled.len(),
        forall|j: int| k <= j < m ==> filled[j],
        !filled[m],
    ensures
        first_empty(filled, k) == Some(m),
    decreases m - k,
{
    if k < m {
        lemma_first_empty_at(filled, k + 1, m);
    }
}

/// What a definite array fill does to the slots: filled slots stay filled;
/// a field whose index is at or past the container's length is untouched;
/// a required field whose position is read is filled.
proof fn lemma_fill_array_slots(fields: Seq<FieldSpec>, inp: Seq<u8>, p: int, j: nat, n: nat, s: Slots)
    requires
        distinct_fields(fields),
        s.filled.len() == fields.len(),
        fill_definite(fields, TypeEncoding::Array, inp, p, j, n, s) is Ok,
    ensures
        ({
            let t = fill_definite(fields, TypeEncoding::Array, inp, p, j, n, s)->Ok_0.0;
            &&& t.filled.len() == fields.len()
            &&& forall|k: int| 0 <= k < fields.len() && s.filled[k] ==> t.filled[k]
            &&& forall|k: int| 0 <= k < fields.len() && fields[k].index >= n ==> t.filled[k] == s.filled[k]
            &&& forall|k: int| 0 <= k < fields.len() && j <= fields[k].index < n && !fields[k].optional ==> t.filled[k]
        }),
    decreases n - j,
{
    if j < n {
        let (s1, q) = step(fields, TypeEncoding::Array, inp, p, j, s)->Ok_0;
        lemma_find_field(fields, j as int);
        match find_field(fields, j as int) {
            None => {
                assert(s1 == s);
            },
            Some(k0) => {
                match dec_field(fields[k0], inp, p) {
                    Ok((v, r)) => {
                        assert(s1.filled == s.filled.update(k0, true));
                    },
                    Err(e) => {
                        assert(s1 == s && fields[k0].optional);
                    },
                }
                assert forall|k: int| 0 <= k < fields.len() && fields[k].index == j && !fields[k].optional
                    implies s1.filled[k] by {
                    assert(k == k0);
                }
            },
        }
        lemma_fill_array_slots(fields, inp, q, j + 1, n, s1);
    }
}

/// Missing required field: in array framing, when a definite container is
/// too short to reach the index of required field `m`, every item in it
/// decodes, and every other required field has a position in it, decoding
/// fails naming field `m`'s index and qualified name.
pub proof fn law_missing_field(fields: Seq<FieldSpec>, m: int, prefix: Seq<char>, inp: Seq<u8>, p: int)
    requires
        distinct_fields(fields),
        0 <= m < fields.len(),
        !fields[m].optional,
        parse_head(inp, p) matches Ok((h, q)) && h.major == MAJOR_ARRAY && h.info < 28 && ({
            &&& fields[m].index >= h.arg
            &&& forall|k: int| 0 <= k < fields.len() && k != m && !fields[k].optional ==> fields[k].index < h.arg
            &&& fill_definite(fields, TypeEncoding::Array, inp, q, 0, h.arg as nat, init_slots(fields)) is Ok
        }),
    ensures
        dec_fields(fields, TypeEncoding::Array, prefix, inp, p)
            == Err::<(Seq<ValueModel>, int), ErrorModel>(ErrorModel::MissingValue(fields[m].index, prefix + fields[m].name@)),
{
    let (h, q) = parse_head(inp, p)->Ok_0;
    let init = init_slots(fields);
    lemma_fill_array_slots(fields, inp, q, 0, h.arg as nat, init);
    let t = fill_definite(fields, TypeEncoding::Array, inp, q, 0, h.arg as nat, init)->Ok_0.0;
    assert forall|k: int| 0 <= k < m implies t.filled[k] by {
        if fields[k].optional {
            assert(init.filled[k]);
        }
    }
    lemma_first_empty_at(t.filled, 0, m);
}

proof fn lemma_skip_uint(n: u64, inp: Seq<u8>, p: int)
    requires
        placed(inp, p, head(MAJOR_UINT, n)),
    ensures
        skip_item(inp, p) == Ok::<int, ErrorModel>(p + head(MAJOR_UINT, n).len()),
        head(MAJOR_UINT, n).len() > 0,
{
    lemma_head_placed(MAJOR_UINT, n, inp, p);
}

proof fn lemma_skip_null(inp: Seq<u8>, p: int)
    requires
        placed(inp, p, seq![NULL_BYTE]),
    ensures
        skip_item(inp, p) == Ok::<int, ErrorModel>(p + 1),
{
    assert(inp[p] == inp.subrange(p, p + 1)[0]);
    assert(parse_head(inp, p) == Ok::<(Head, int), ErrorModel>((Head { major: 7, info: 22, arg: 22 }, p + 1)));
}

/// Skipping the encoding of a value, whatever the schema, lands right after it.
proof fn lemma_skip_value(sh: Shape, v: ValueModel, inp: Seq<u8>, p: int)
    requires
        enc_value(sh, v) is Some,
        placed(inp, p, enc_value(sh, v).unwrap()),
    ensures
        skip_item(inp, p) == Ok::<int, ErrorModel>(p + enc_value(sh, v).unwrap().len()),
        enc_value(sh, v).unwrap().len() > 0,
    decreases sh, 0int, 0int,
{
    let b = enc_value(sh, v).unwrap();
    match (sh, v) {
        (Shape::UInt, ValueModel::UInt(n)) => {
            lemma_skip_uint(n, inp, p);
        },
        (Shape::Bool, ValueModel::Bool(x)) => {
            assert(inp[p] == b[0]);
        },
        (Shape::Bytes, ValueModel::Bytes(c)) => {
            lemma_string_round_trip(MAJOR_BYTES, c, inp, p);
        },
        (Shape::BorrowedBytes, ValueModel::BorrowedBytes(c)) => {
            lemma_string_round_trip(MAJOR_BYTES, c, inp, p);
        },
        (Shape::Text, ValueModel::Text(c)) => {
            lemma_string_round_trip(MAJOR_TEXT, c, inp, p);
        },
        (Shape::BorrowedText, ValueModel::BorrowedText(c)) => {
            lemma_string_round_trip(MAJOR_TEXT, c, inp, p);
        },
        (Shape::Struct(ss), ValueModel::Record(vs)) => {
            if ss.attrs.transparent {
                lemma_skip_field(ss.fields@[0], vs[0], inp, p);
            } else {
                lemma_skip_fields(ss.fields@, ss.attrs.encoding, vs, inp, p);
            }
        },
        (Shape::Enum(es), ValueModel::Variant(t, vs)) => {
            lemma_find_variant(es.variants@, t as int);
            let k = find_variant(es.variants@, t as int).unwrap();
            let var = es.variants@[k];
            let enc = match var.encoding {
                Some(e) => e,
                None => es.attrs.encoding,
            };
            let tag = head(MAJOR_UINT, t as u64);
            lemma_head_first(MAJOR_ARRAY, 2);
            if es.attrs.index_only {
                lemma_skip_uint(t as u64, inp, p);
            } else {
                let frame = head(MAJOR_ARRAY, 2);
                let payload = match var.kind {
                    VariantKind::Unit => seq![NULL_BYTE],
                    VariantKind::Tuple(fs) => enc_fields(fs@, enc, vs).unwrap(),
                    VariantKind::Named(fs) => enc_fields(fs@, enc, vs).unwrap(),
                };
                assert(b == frame + tag + payload);
                lemma_split(inp, p, frame + tag, payload);
                lemma_split(inp, p, frame, tag);
                lemma_head_placed(MAJOR_ARRAY, 2, inp, p);
                let q = p + frame.len();
                lemma_skip_uint(t as u64, inp, q);
                let r = q + tag.len();
                match var.kind {
                    VariantKind::Unit => {
                        lemma_skip_null(inp, r);
                    },
                    VariantKind::Tuple(fs) => {
                        lemma_skip_fields(fs@, enc, vs, inp, r);
                    },
                    VariantKind::Named(fs) => {
                        lemma_skip_fields(fs@, enc, vs, inp, r);
                    },
                }
                assert(skip_items(inp, r, 1) == Ok::<int, ErrorModel>(r + payload.len())) by {
                    assert(skip_items(inp, r + payload.len(), 0) == Ok::<int, ErrorModel>(r + payload.len()));
                }
                assert(skip_items(inp, q, 2) == Ok::<int, ErrorModel>(r + payload.len()));
            }
        },
        _ => {},
    }
}

/// The number of data items in `c` entries of framing `enc`.
pub open spec fn entry_items(c: nat, enc: TypeEncoding) -> nat {
    if enc == TypeEncoding::Array { c } else { 2 * c }
}

proof fn lemma_skip_fields(fields: Seq<FieldSpec>, enc: TypeEncoding, vs: Seq<ValueModel>, inp: Seq<u8>, p: int)
    requires
        enc_fields(fields, enc, vs) is Some,
        placed(inp, p, enc_fields(fields, enc, vs).unwrap()),
    ensures
        skip_item(inp, p) == Ok::<int, ErrorModel>(p + enc_fields(fields, enc, vs).unwrap().len()),
        enc_fields(fields, enc, vs).unwrap().len() > 0,
    decreases fields, 3int, 0int,
{
    let major = if enc == TypeEncoding::Array { MAJOR_ARRAY } else { MAJOR_MAP };
    let n = fields.len();
    let h = head(major, n as u64);
    let e = enc_sorted(fields, enc, vs, 0).unwrap().0;
    lemma_split(inp, p, h, e);
    lemma_head_placed(major, n as u64, inp, p);
    lemma_head_first(major, n as u64);
    lemma_skip_sorted(fields, enc, vs, inp, p + h.len(), 0);
}

proof fn lemma_skip_sorted(fields: Seq<FieldSpec>, enc: TypeEncoding, vs: Seq<ValueModel>, inp: Seq<u8>, p: int, lo: int)
    requires
        0 <= lo <= 0x1_0000_0000,
        enc_sorted(fields, enc, vs, lo) is Some,
        placed(inp, p, enc_sorted(fields, enc, vs, lo).unwrap().0),
    ensures
        skip_items(inp, p, entry_items(enc_sorted(fields, enc, vs, lo).unwrap().1, enc))
            == Ok::<int, ErrorModel>(p + enc_sorted(fields, enc, vs, lo).unwrap().0.len()),
    decreases fields, 2int, 0x1_0000_0000 - lo,
{
    lemma_least_from(fields, lo);
    if !(lo > u32::MAX || least_from(fields, lo) is None) {
        let k = least_from(fields, lo).unwrap();
        let f = fields[k];
        let ix = f.index as int;
        let key = entry_key(f, enc);
        let a = enc_field(f, vs[k]).unwrap();
        let (rest, c) = enc_sorted(fields, enc, vs, ix + 1).unwrap();
        assert(enc_sorted(fields, enc, vs, lo).unwrap().0 == key + a + rest);
        lemma_split(inp, p, key + a, rest);
        lemma_split(inp, p, key, a);
        lemma_skip_field(f, vs[k], inp, p + key.len());
        lemma_skip_sorted(fields, enc, vs, inp, p + key.len() + a.len(), ix + 1);
        let q = p + key.len();
        if enc == TypeEncoding::Keyed {
            lemma_skip_uint(f.index as u64, inp, p);
            assert(skip_items(inp, q, (2 * (c + 1) - 1) as nat)
                == skip_items(inp, q + a.len(), entry_items(c, enc)));
        } else {
            assert(key =~= Seq::<u8>::empty());
        }
    }
}

proof fn lemma_skip_field(f: FieldSpec, v: ValueModel, inp: Seq<u8>, p: int)
    requires
        enc_field(f, v) is Some,
        placed(inp, p, enc_field(f, v).unwrap()),
    ensures
        skip_item(inp, p) == Ok::<int, ErrorModel>(p + enc_field(f, v).unwrap().len()),
        enc_field(f, v).unwrap().len() > 0,
    decreases f, 0int, 0int,
{
    if f.optional && v == ValueModel::Null {
        lemma_skip_null(inp, p);
    } else {
        let s = match f.codec {
            Codec::Custom { encode: Some(s), .. } => *s,
            _ => f.shape,
        };
        assert(enc_field(f, v) == enc_value(s, v));
        lemma_skip_value(s, v, inp, p);
    }
}

/// Reading, under the older fields, the entries that a newer schema with one
/// more field wrote for the fields with index `lo` or above.
proof fn lemma_fill_newer(
    older: Seq<FieldSpec>,
    extra: FieldSpec,
    enc: TypeEncoding,
    vs: Seq<ValueModel>,
    x: ValueModel,
    inp: Seq<u8>,
    p: int,
    lo: int,
    i: nat,
    n: nat,
)
    requires
        distinct_fields(older.push(extra)),
        all_fields_sound(older, 0),
        vs.len() == older.len(),
        0 <= lo <= 0x1_0000_0000,
        enc == TypeEncoding::Array ==> i == lo,
        enc_sorted(older.push(extra), enc, vs.push(x), lo) is Some,
        i + enc_sorted(older.push(extra), enc, vs.push(x), lo).unwrap().1 == n,
        placed(inp, p, enc_sorted(older.push(extra), enc, vs.push(x), lo).unwrap().0),
    ensures
        fill_definite(older, enc, inp, p, i, n, partial(older, vs, lo)) == Ok::<(Slots, int), ErrorModel>((
            partial(older, vs, 0x1_0000_0000),
            p + enc_sorted(older.push(extra), enc, vs.push(x), lo).unwrap().0.len(),
        )),
    decreases 0x1_0000_0000 - lo,
{
    let newer = older.push(extra);
    let vs2 = vs.push(x);
    let m = older.len();
    assert(forall|j: int| 0 <= j < m ==> newer[j] == older[j] && vs2[j] == vs[j]);
    assert(newer[m as int] == extra && vs2[m as int] == x);
    assert(distinct_fields(older));
    lemma_least_from(newer, lo);
    if lo > u32::MAX || least_from(newer, lo) is None {
        assert(partial(older, vs, lo).filled =~= partial(older, vs, 0x1_0000_0000).filled);
        assert(partial(older, vs, lo).vals =~= partial(older, vs, 0x1_0000_0000).vals);
    } else {
        let k = least_from(newer, lo).unwrap();
        let f = newer[k];
        let ix = f.index as int;
        let key = entry_key(f, enc);
        let a = enc_field(f, vs2[k]).unwrap();
        let (rest, c) = enc_sorted(newer, enc, vs2, ix + 1).unwrap();
        assert(enc_sorted(newer, enc, vs2, lo).unwrap().0 == key + a + rest);
        lemma_split(inp, p, key + a, rest);
        lemma_split(inp, p, key, a);
        lemma_find_field(older, ix);
        if enc == TypeEncoding::Keyed {
            lemma_head_placed(MAJOR_UINT, f.index as u64, inp, p);
            assert(read_u32(inp, p) == Ok::<(u32, int), ErrorModel>((f.index, p + key.len())));
        } else {
            assert(key =~= Seq::<u8>::empty());
        }
        let s0 = partial(older, vs, lo);
        let s1 = partial(older, vs, ix + 1);
        if k < m {
            assert(find_field(older, ix) == Some(k));
            lemma_all_fields_sound(older, 0, k);
            lemma_field_round_trip(f, vs[k], inp, p + key.len());
            assert(s1.filled =~= s0.filled.update(k, true));
            assert(s1.vals =~= s0.vals.update(k, vs[k]));
            assert(step(older, enc, inp, p, i, s0) == Ok::<(Slots, int), ErrorModel>((s1, p + key.len() + a.len())));
        } else {
            assert(find_field(older, ix) is None);
            lemma_skip_field(extra, x, inp, p + key.len());
            assert(s1.filled =~= s0.filled);
            assert(s1.vals =~= s0.vals);
            assert(step(older, enc, inp, p, i, s0) == Ok::<(Slots, int), ErrorModel>((s1, p + key.len() + a.len())));
        }
        lemma_fill_newer(older, extra, enc, vs, x, inp, p + key.len() + a.len(), ix + 1, i + 1, n);
    }
}

/// Forward compatibility: a struct written under a newer schema that adds
/// one field, with an index the older schema does not use, reads under the
/// older schema as the values of the older fields. The added field is
/// skipped exactly once, byte for byte, wherever its index puts it, and
/// decoding ends where the container ends, at the next sibling.
pub proof fn law_forward_compat(
    older: Seq<FieldSpec>,
    extra: FieldSpec,
    enc: TypeEncoding,
    prefix: Seq<char>,
    vs: Seq<ValueModel>,
    x: ValueModel,
    inp: Seq<u8>,
    p: int,
)
    requires
        distinct_fields(older.push(extra)),
        all_fields_sound(older, 0),
        enc_fields(older.push(extra), enc, vs.push(x)) is Some,
        placed(inp, p, enc_fields(older.push(extra), enc, vs.push(x)).unwrap()),
    ensures
        dec_fields(older, enc, prefix, inp, p) == Ok::<(Seq<ValueModel>, int), ErrorModel>((
            vs,
            p + enc_fields(older.push(extra), enc, vs.push(x)).unwrap().len(),
        )),
{
    let newer = older.push(extra);
    let vs2 = vs.push(x);
    let n = newer.len();
    assert(vs.len() == older.len());
    let major = if enc == TypeEncoding::Array { MAJOR_ARRAY } else { MAJOR_MAP };
    let h = head(major, n as u64);
    let e = enc_sorted(newer, enc, vs2, 0).unwrap().0;
    lemma_split(inp, p, h, e);
    lemma_head_placed(major, n as u64, inp, p);
    assert(init_slots(older).filled =~= partial(older, vs, 0).filled);
    assert(init_slots(older).vals =~= partial(older, vs, 0).vals);
    lemma_fill_newer(older, extra, enc, vs, x, inp, p + h.len(), 0, 0, n as nat);
    let fin = partial(older, vs, 0x1_0000_0000);
    lemma_none_empty(fin.filled, 0);
    assert(fin.vals =~= vs);
}

/// No encoding starts with the break marker.
proof fn lemma_value_not_break(sh: Shape, v: ValueModel)
    requires
        enc_value(sh, v) is Some,
    ensures
        enc_value(sh, v).unwrap().len() > 0,
        enc_value(sh, v).unwrap()[0] != BREAK_BYTE,
    decreases sh, 0int, 0int,
{
    let b = enc_value(sh, v).unwrap();
    match (sh, v) {
        (Shape::UInt, ValueModel::UInt(n)) => {
            lemma_head_first(MAJOR_UINT, n);
        },
        (Shape::Bytes, ValueModel::Bytes(c)) => {
            lemma_head_first(MAJOR_BYTES, c.len() as u64);
            assert(b[0] == head(MAJOR_BYTES, c.len() as u64)[0]);
        },
        (Shape::BorrowedBytes, ValueModel::BorrowedBytes(c)) => {
            lemma_head_first(MAJOR_BYTES, c.len() as u64);
            assert(b[0] == head(MAJOR_BYTES, c.len() as u64)[0]);
        },
        (Shape::Text, ValueModel::Text(c)) => {
            lemma_head_first(MAJOR_TEXT, c.len() as u64);
            assert(b[0] == head(MAJOR_TEXT, c.len() as u64)[0]);
        },
        (Shape::BorrowedText, ValueModel::BorrowedText(c)) => {
            lemma_head_first(MAJOR_TEXT, c.len() as u64);
            assert(b[0] == head(MAJOR_TEXT, c.len() as u64)[0]);
        },
        (Shape::Struct(ss), ValueModel::Record(vs)) => {
            if ss.attrs.transparent {
                lemma_field_not_break(ss.fields@[0], vs[0]);
            } else {
                let major = if ss.attrs.encoding == TypeEncoding::Array { MAJOR_ARRAY } else { MAJOR_MAP };
                let h = head(major, ss.fields@.len() as u64);
                lemma_head_first(major, ss.fields@.len() as u64);
                assert(enc_value(sh, v) == enc_fields(ss.fields@, ss.attrs.encoding, vs));
                let e = enc_sorted(ss.fields@, ss.attrs.encoding, vs, 0).unwrap().0;
                assert(b == h + e);
                assert(b[0] == h[0]);
            }
        },
        (Shape::Enum(es), ValueModel::Variant(t, vs)) => {
            lemma_find_variant(es.variants@, t as int);
            let frame = head(MAJOR_ARRAY, 2);
            lemma_head_first(MAJOR_UINT, t as u64);
            lemma_head_first(MAJOR_ARRAY, 2);
            if !es.attrs.index_only {
                assert(b.subrange(0, frame.len() as int) =~= frame);
                assert(b[0] == frame[0]);
            }
        },
        _ => {},
    }
}

proof fn lemma_field_not_break(f: FieldSpec, v: ValueModel)
    requires
        enc_field(f, v) is Some,
    ensures
        enc_field(f, v).unwrap().len() > 0,
        enc_field(f, v).unwrap()[0] != BREAK_BYTE,
    decreases f, 0int, 0int,
{
    if !(f.optional && v == ValueModel::Null) {
        let s = match f.codec {
            Codec::Custom { encode: Some(s), .. } => *s,
            _ => f.shape,
        };
        assert(enc_field(f, v) == enc_value(s, v));
        lemma_value_not_break(s, v);
    }
}

/// Reading the entries the encoder wrote for the fields with index `lo` or
/// above, as entries of an indefinite container up to its break marker.
proof fn lemma_fill_indefinite(fields: Seq<FieldSpec>, enc: TypeEncoding, vs: Seq<ValueModel>, inp: Seq<u8>, p: int, lo: int, i: nat)
    requires
        distinct_fields(fields),
        all_fields_sound(fields, 0),
        vs.len() == fields.len(),
        0 <= lo <= 0x1_0000_0000,
        enc == TypeEncoding::Array ==> i == lo,
        enc_sorted(fields, enc, vs, lo) is Some,
        placed(inp, p, enc_sorted(fields, enc, vs, lo).unwrap().0 + seq![BREAK_BYTE]),
    ensures
        fill_indefinite(fields, enc, inp, p, i, partial(fields, vs, lo)) == Ok::<(Slots, int), ErrorModel>((
            partial(fields, vs, 0x1_0000_0000),
            p + enc_sorted(fields, enc, vs, lo).unwrap().0.len() + 1,
        )),
    decreases 0x1_0000_0000 - lo,
{
    let e = enc_sorted(fields, enc, vs, lo).unwrap().0;
    lemma_split(inp, p, e, seq![BREAK_BYTE]);
    lemma_least_from(fields, lo);
    if lo > u32::MAX || least_from(fields, lo) is None {
        assert(inp[p + e.len()] == inp.subrange(p + e.len(), p + e.len() + 1)[0]);
        assert(partial(fields, vs, lo).filled =~= partial(fields, vs, 0x1_0000_0000).filled);
        assert(partial(fields, vs, lo).vals =~= partial(fields, vs, 0x1_0000_0000).vals);
    } else {
        let k = least_from(fields, lo).unwrap();
        let f = fields[k];
        let ix = f.index as int;
        let key = entry_key(f, enc);
        let a = enc_field(f, vs[k]).unwrap();
        let (rest, c) = enc_sorted(fields, enc, vs, ix + 1).unwrap();
        assert(e == key + a + rest);
        assert(e + seq![BREAK_BYTE] =~= (key + a) + (rest + seq![BREAK_BYTE]));
        lemma_split(inp, p, key + a, rest + seq![BREAK_BYTE]);
        lemma_split(inp, p, key, a);
        lemma_find_field(fields, ix);
        assert(find_field(fields, ix) == Some(k));
        lemma_field_not_break(f, vs[k]);
        if enc == TypeEncoding::Keyed {
            lemma_head_placed(MAJOR_UINT, f.index as u64, inp, p);
            lemma_head_first(MAJOR_UINT, f.index as u64);
            assert(inp[p] == key[0]);
            assert(read_u32(inp, p) == Ok::<(u32, int), ErrorModel>((f.index, p + key.len())));
        } else {
            assert(key =~= Seq::<u8>::empty());
            assert(inp[p] == a[0]);
        }
        lemma_all_fields_sound(fields, 0, k);
        lemma_field_round_trip(f, vs[k], inp, p + key.len());
        let s0 = partial(fields, vs, lo);
        let s1 = partial(fields, vs, ix + 1);
        assert(s1.filled =~= s0.filled.update(k, true));
        assert(s1.vals =~= s0.vals.update(k, vs[k]));
        assert(step(fields, enc, inp, p, i, s0) == Ok::<(Slots, int), ErrorModel>((s1, p + key.len() + a.len())));
        lemma_fill_indefinite(fields, enc, vs, inp, p + key.len() + a.len(), ix + 1, i + 1);
    }
}

/// The first byte of an indefinite-length container of framing `enc`.
pub open spec fn indefinite_start(enc: TypeEncoding) -> u8 {
    if enc == TypeEncoding::Array { 0x9f } else { 0xbf }
}

/// Indefinite and definite framing agree: the entries that the encoder writes
/// for a struct, framed instead as an indefinite-length container ended by a
/// break marker, read as the same field values as the definite container,
/// and decoding ends right after the break marker.
#[verifier::rlimit(60)]
pub proof fn law_indefinite_framing(
    fields: Seq<FieldSpec>,
    enc: TypeEncoding,
    prefix: Seq<char>,
    vs: Seq<ValueModel>,
    inp: Seq<u8>,
    p: int,
)
    requires
        distinct_fields(fields),
        all_fields_sound(fields, 0),
        enc_fields(fields, enc, vs) is Some,
        placed(inp, p, seq![indefinite_start(enc)] + enc_sorted(fields, enc, vs, 0).unwrap().0 + seq![BREAK_BYTE]),
    ensures
        dec_fields(fields, enc, prefix, inp, p) == Ok::<(Seq<ValueModel>, int), ErrorModel>((
            vs,
            p + enc_sorted(fields, enc, vs, 0).unwrap().0.len() + 2,
        )),
        dec_fields(fields, enc, prefix, enc_fields(fields, enc, vs).unwrap(), 0)
            == Ok::<(Seq<ValueModel>, int), ErrorModel>((vs, enc_fields(fields, enc, vs).unwrap().len() as int)),
{
    let e = enc_sorted(fields, enc, vs, 0).unwrap().0;
    let start = seq![indefinite_start(enc)];
    assert(placed(inp, p, start) && placed(inp, p + 1, e + seq![BREAK_BYTE])) by {
        assert(start + e + seq![BREAK_BYTE] =~= start + (e + seq![BREAK_BYTE]));
        lemma_split(inp, p, start, e + seq![BREAK_BYTE]);
    }
    assert(parse_head(inp, p) == Ok::<(Head, int), ErrorModel>((
        Head { major: if enc == TypeEncoding::Array { MAJOR_ARRAY } else { MAJOR_MAP }, info: 31, arg: 0 },
        p + 1,
    ))) by {
        assert(inp[p] == inp.subrange(p, p + 1)[0]);
    }
    assert(init_slots(fields).filled =~= partial(fields, vs, 0).filled);
    assert(init_slots(fields).vals =~= partial(fields, vs, 0).vals);
    lemma_fill_indefinite(fields, enc, vs, inp, p + 1, 0, 0);
    let fin = partial(fields, vs, 0x1_0000_0000);
    lemma_none_empty(fin.filled, 0);
    assert(fin.vals =~= vs);
    assert(dec_fields(fields, enc, prefix, enc_fields(fields, enc, vs).unwrap(), 0)
        == Ok::<(Seq<ValueModel>, int), ErrorModel>((vs, enc_fields(fields, enc, vs).unwrap().len() as int))) by {
        let b = enc_fields(fields, enc, vs).unwrap();
        assert(b.subrange(0, b.len() as int) =~= b);
        lemma_fields_round_trip(fields, enc, prefix, vs, b, 0);
    }
}

} // verus!
