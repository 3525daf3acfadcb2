//! The decode engine: fills field slots from the wire and dispatches on enum tags.
use vstd::prelude::*;
use vstd::string::*;
use crate::error::{Error, ErrorModel};
use crate::schema::{
    field_position, find_field, find_variant, variant_position, Codec, EnumSpec, FieldSpec, Shape,
    TypeAttributes, TypeEncoding, VariantKind, VariantSpec,
};
use crate::value::{lemma_record_view, lemma_variant_view, models, Value, ValueModel};
use crate::wire::{
    parse_head, skip_item, Decoder, BREAK_BYTE, FALSE_BYTE, INDEFINITE, MAJOR_ARRAY, MAJOR_BYTES,
    MAJOR_MAP, MAJOR_TEXT, MAJOR_UINT, NULL_BYTE, TRUE_BYTE,
};

verus! {

/// An unsigned integer item at `p`.
pub open spec fn read_uint(inp: Seq<u8>, p: int) -> Result<(u64, int), ErrorModel> {
    match parse_head(inp, p) {
        Err(e) => Err(e),
        Ok((h, q)) => if h.major == MAJOR_UINT && h.info < 28 { Ok((h.arg, q)) } else { Err(ErrorModel::TypeMismatch) },
    }
}

/// An unsigned integer item at `p` that fits 32 bits.
pub open spec fn read_u32(inp: Seq<u8>, p: int) -> Result<(u32, int), ErrorModel> {
    match read_uint(inp, p) {
        Err(e) => Err(e),
        Ok((n, q)) => if n > u32::MAX { Err(ErrorModel::Overflow) } else { Ok((n as u32, q)) },
    }
}

/// The content of a definite string item of major type `major` at `p`: where
/// it starts and ends.
pub open spec fn read_string(inp: Seq<u8>, p: int, major: u8) -> Result<(int, int), ErrorModel> {
    match parse_head(inp, p) {
        Err(e) => Err(e),
        Ok((h, q)) => if h.major != major || h.info >= 28 {
            Err(ErrorModel::TypeMismatch)
        } else if q + h.arg > inp.len() {
            Err(ErrorModel::EndOfInput)
        } else {
            Ok((q, q + h.arg))
        },
    }
}

/// A boolean item at `p`.
pub open spec fn read_bool(inp: Seq<u8>, p: int) -> Result<(bool, int), ErrorModel> {
    if p < 0 || p >= inp.len() {
        Err(ErrorModel::EndOfInput)
    } else if inp[p] == TRUE_BYTE {
        Ok((true, p + 1))
    } else if inp[p] == FALSE_BYTE {
        Ok((false, p + 1))
    } else {
        Err(ErrorModel::TypeMismatch)
    }
}

pub open spec fn enum_frame_message() -> Seq<char> {
    "expected enum (2-element array)"@
}

pub open spec fn transparent_message() -> Seq<char> {
    "transparent type needs exactly one field"@
}

/// The slots of a struct decode: which fields hold a value, and the values.
pub ghost struct Slots {
    pub filled: Seq<bool>,
    pub vals: Seq<ValueModel>,
}

/// Before any item is read, optional fields count as present and absent
/// (`Null`), required ones as empty.
pub open spec fn init_slots(fields: Seq<FieldSpec>) -> Slots {
    Slots {
        filled: Seq::new(fields.len(), |k: int| fields[k].optional),
        vals: Seq::new(fields.len(), |k: int| ValueModel::Null),
    }
}

/// The first empty slot at or after `k`.
pub open spec fn first_empty(filled: Seq<bool>, k: int) -> Option<int>
    decreases filled.len() - k,
{
    if k < 0 || k >= filled.len() {
        None
    } else if !filled[k] {
        Some(k)
    } else {
        first_empty(filled, k + 1)
    }
}

/// Decoding a value of shape `sh` at `p`: the value and the position after it.
pub open spec fn dec_value(sh: Shape, inp: Seq<u8>, p: int) -> Result<(ValueModel, int), ErrorModel>
    decreases sh, 0int, 0int,
{
    match sh {
        Shape::UInt => match read_uint(inp, p) {
            Ok((n, q)) => Ok((ValueModel::UInt(n), q)),
            Err(e) => Err(e),
        },
        Shape::Bool => match read_bool(inp, p) {
            Ok((b, q)) => Ok((ValueModel::Bool(b), q)),
            Err(e) => Err(e),
        },
        Shape::Bytes => match read_string(inp, p, MAJOR_BYTES) {
            Ok((s, e)) => Ok((ValueModel::Bytes(inp.subrange(s, e)), e)),
            Err(e) => Err(e),
        },
        Shape::Text => match read_string(inp, p, MAJOR_TEXT) {
            Ok((s, e)) => Ok((ValueModel::Text(inp.subrange(s, e)), e)),
            Err(e) => Err(e),
        },
        Shape::BorrowedBytes => match read_string(inp, p, MAJOR_BYTES) {
            Ok((s, e)) => Ok((ValueModel::BorrowedBytes(inp.subrange(s, e)), e)),
            Err(e) => Err(e),
        },
        Shape::BorrowedText => match read_string(inp, p, MAJOR_TEXT) {
            Ok((s, e)) => Ok((ValueModel::BorrowedText(inp.subrange(s, e)), e)),
            Err(e) => Err(e),
        },
        Shape::Struct(ss) => if ss.attrs.transparent {
            if ss.fields@.len() == 1 {
                match dec_field(ss.fields@[0], inp, p) {
                    Ok((v, q)) => Ok((ValueModel::Record(seq![v]), q)),
                    Err(e) => Err(e),
                }
            } else {
                Err(ErrorModel::Message(transparent_message()))
            }
        } else {
            match dec_fields(ss.fields@, ss.attrs.encoding, ss.name@ + "::"@, inp, p) {
                Ok((vs, q)) => Ok((ValueModel::Record(vs), q)),
                Err(e) => Err(e),
            }
        },
        Shape::Enum(es) => dec_enum(es, inp, p),
    }
}

/// Decoding one field at `p`: an optional field reads `null` as absent; the
/// field's custom decode shape, if any, replaces its own.
pub open spec fn dec_field(f: FieldSpec, inp: Seq<u8>, p: int) -> Result<(ValueModel, int), ErrorModel>
    decreases f, 0int, 0int,
{
    if f.optional && 0 <= p < inp.len() && inp[p] == NULL_BYTE {
        Ok((ValueModel::Null, p + 1))
    } else {
        match f.codec {
            Codec::Custom { decode: Some(s), .. } => dec_value(*s, inp, p),
            _ => dec_value(f.shape, inp, p),
        }
    }
}

/// The field values once the container is read, or the first required field
/// that no item filled.
pub open spec fn conclude(
    fields: Seq<FieldSpec>,
    prefix: Seq<char>,
    filled: Result<(Slots, int), ErrorModel>,
) -> Result<(Seq<ValueModel>, int), ErrorModel> {
    match filled {
        Err(e) => Err(e),
        Ok((s, r)) => match first_empty(s.filled, 0) {
            Some(k) => Err(ErrorModel::MissingValue(fields[k].index, prefix + fields[k].name@)),
            None => Ok((s.vals, r)),
        },
    }
}

/// The fields of a struct or variant framed as `enc` at `p`: their values in
/// declaration order, or the first required field that no item filled.
pub open spec fn dec_fields(
    fields: Seq<FieldSpec>,
    enc: TypeEncoding,
    prefix: Seq<char>,
    inp: Seq<u8>,
    p: int,
) -> Result<(Seq<ValueModel>, int), ErrorModel>
    decreases fields, 2int, 0int,
{
    match parse_head(inp, p) {
        Err(e) => Err(e),
        Ok((h, q)) => {
            let major = if enc == TypeEncoding::Array { MAJOR_ARRAY } else { MAJOR_MAP };
            if h.major != major || (h.info >= 28 && h.info != INDEFINITE) {
                Err(ErrorModel::TypeMismatch)
            } else {
                let filled = if h.info == INDEFINITE {
                    fill_indefinite(fields, enc, inp, q, 0, init_slots(fields))
                } else {
                    fill_definite(fields, enc, inp, q, 0, h.arg as nat, init_slots(fields))
                };
                conclude(fields, prefix, filled)
            }
        },
    }
}

/// Items `i .. n` of a definite-length container.
pub open spec fn fill_definite(
    fields: Seq<FieldSpec>,
    enc: TypeEncoding,
    inp: Seq<u8>,
    p: int,
    i: nat,
    n: nat,
    s: Slots,
) -> Result<(Slots, int), ErrorModel>
    decreases fields, 1int, n - i,
{
    if i >= n {
        Ok((s, p))
    } else {
        match step(fields, enc, inp, p, i, s) {
            Err(e) => Err(e),
            Ok((s2, q)) => fill_definite(fields, enc, inp, q, i + 1, n, s2),
        }
    }
}

/// Items from number `i` on of an indefinite-length container, and its break marker.
pub open spec fn fill_indefinite(
    fields: Seq<FieldSpec>,
    enc: TypeEncoding,
    inp: Seq<u8>,
    p: int,
    i: nat,
    s: Slots,
) -> Result<(Slots, int), ErrorModel>
    decreases fields, 1int, inp.len() - p,
{
    if p < 0 || p >= inp.len() {
        Err(ErrorModel::EndOfInput)
    } else if inp[p] == BREAK_BYTE {
        Ok((s, p + 1))
    } else {
        match step(fields, enc, inp, p, i, s) {
            Err(e) => Err(e),
            Ok((s2, q)) => if q <= p || q > inp.len() {
                Err(ErrorModel::Malformed)
            } else {
                fill_indefinite(fields, enc, inp, q, i + 1, s2)
            },
        }
    }
}

/// One entry of a container: the item at position `i` of an array, or one
/// key and value of a map. An item for no known field is skipped; so is one
/// whose optional field met an unknown enum variant.
pub open spec fn step(
    fields: Seq<FieldSpec>,
    enc: TypeEncoding,
    inp: Seq<u8>,
    p: int,
    i: nat,
    s: Slots,
) -> Result<(Slots, int), ErrorModel>
    decreases fields, 0int, 0int via step_decreases
{
    let key = if enc == TypeEncoding::Array {
        Ok((i as int, p))
    } else {
        match read_u32(inp, p) {
            Ok((k, q)) => Ok((k as int, q)),
            Err(e) => Err(e),
        }
    };
    match key {
        Err(e) => Err(e),
        Ok((key, q)) => match find_field(fields, key) {
            None => match skip_item(inp, q) {
                Ok(r) => Ok((s, r)),
                Err(e) => Err(e),
            },
            Some(k) => match dec_field(fields[k], inp, q) {
                Ok((v, r)) => Ok((Slots { filled: s.filled.update(k, true), vals: s.vals.update(k, v) }, r)),
                Err(ErrorModel::UnknownVariant(t)) => if fields[k].optional {
                    match skip_item(inp, q) {
                        Ok(r) => Ok((s, r)),
                        Err(e) => Err(e),
                    }
                } else {
                    Err(ErrorModel::UnknownVariant(t))
                },
                Err(e) => Err(e),
            },
        },
    }
}

#[via_fn]
proof fn step_decreases(
    fields: Seq<FieldSpec>,
    enc: TypeEncoding,
    inp: Seq<u8>,
    p: int,
    i: nat,
    s: Slots,
) {
    crate::schema::lemma_find_field(fields, i as int);
    if let Ok((k, q)) = read_u32(inp, p) {
        crate::schema::lemma_find_field(fields, k as int);
    }
}

#[via_fn]
proof fn enum_decreases(es: EnumSpec, inp: Seq<u8>, p: int) {
    assert forall|t: u32| #[trigger] find_variant(es.variants@, t as int) matches Some(k) ==> 0 <= k < es.variants@.len() by {
        crate::schema::lemma_find_variant(es.variants@, t as int);
    }
}

/// An enum value at `p`: the frame (unless index-only), the tag, and the
/// payload of the variant that carries the tag.
pub open spec fn dec_enum(es: EnumSpec, inp: Seq<u8>, p: int) -> Result<(ValueModel, int), ErrorModel>
    decreases es, 0int, 0int via enum_decreases
{
    let tag_at = if es.attrs.index_only {
        Ok(p)
    } else {
        match parse_head(inp, p) {
            Err(e) => Err(e),
            Ok((h, q)) => if h.major != MAJOR_ARRAY || (h.info >= 28 && h.info != INDEFINITE) {
                Err(ErrorModel::TypeMismatch)
            } else if h.info == INDEFINITE || h.arg != 2 {
                Err(ErrorModel::Message(enum_frame_message()))
            } else {
                Ok(q)
            },
        }
    };
    match tag_at {
        Err(e) => Err(e),
        Ok(q) => match read_u32(inp, q) {
            Err(e) => Err(e),
            Ok((tag, r)) => match find_variant(es.variants@, tag as int) {
                None => Err(ErrorModel::UnknownVariant(tag)),
                Some(k) => dec_variant(es.variants@[k], es.attrs, es.name@, inp, r),
            },
        },
    }
}

/// The payload of variant `v` of an enum named `ename`, at `p`.
pub open spec fn dec_variant(
    v: VariantSpec,
    attrs: TypeAttributes,
    ename: Seq<char>,
    inp: Seq<u8>,
    p: int,
) -> Result<(ValueModel, int), ErrorModel>
    decreases v, 0int, 0int,
{
    let enc = match v.encoding {
        Some(e) => e,
        None => attrs.encoding,
    };
    let prefix = ename + "::"@ + v.name@ + "::"@;
    match v.kind {
        VariantKind::Unit => if attrs.index_only {
            Ok((ValueModel::Variant(v.index, seq![]), p))
        } else {
            match skip_item(inp, p) {
                Ok(q) => Ok((ValueModel::Variant(v.index, seq![]), q)),
                Err(e) => Err(e),
            }
        },
        VariantKind::Tuple(fs) => match dec_fields(fs@, enc, prefix, inp, p) {
            Ok((vs, q)) => Ok((ValueModel::Variant(v.index, vs), q)),
            Err(e) => Err(e),
        },
        VariantKind::Named(fs) => match dec_fields(fs@, enc, prefix, inp, p) {
            Ok((vs, q)) => Ok((ValueModel::Variant(v.index, vs), q)),
            Err(e) => Err(e),
        },
    }
}

/// The name of a field qualified by the type (and variant) that holds it.
fn qualified(prefix: &String, name: &String) -> (r: String)
    ensures
        r@ == prefix@ + name@,
{
    let mut s = prefix.clone();
    s.append(name.as_str());
    s
}

impl<'a> Decoder<'a> {
    /// Reads an unsigned integer.
    pub fn read_uint(&mut self) -> (r: Result<u64, Error>)
        requires
            old(self).wf(),
        ensures
            final(self).wf(),
            final(self).input == old(self).input,
            match read_uint(old(self).input@, old(self).pos as int) {
                Ok((n, q)) => r == Ok::<u64, Error>(n) && final(self).pos == q,
                Err(e) => r matches Err(x) && x@ == e,
            },
            r is Ok ==> final(self).pos > old(self).pos,
    {
        let h = self.read_head()?;
        if h.major == MAJOR_UINT && h.info < 28 {
            Ok(h.arg)
        } else {
            Err(Error::TypeMismatch)
        }
    }

    /// Reads an unsigned integer that fits 32 bits.
    pub fn read_u32(&mut self) -> (r: Result<u32, Error>)
        requires
            old(self).wf(),
        ensures
            final(self).wf(),
            final(self).input == old(self).input,
            match read_u32(old(self).input@, old(self).pos as int) {
                Ok((n, q)) => r == Ok::<u32, Error>(n) && final(self).pos == q,
                Err(e) => r matches Err(x) && x@ == e,
            },
            r is Ok ==> final(self).pos > old(self).pos,
    {
        let n = self.read_uint()?;
        if n > u32::MAX as u64 {
            Err(Error::Overflow)
        } else {
            Ok(n as u32)
        }
    }

    /// Reads the header of a definite string of major type `major`: where its
    /// content starts and ends.
    fn read_string(&mut self, major: u8) -> (r: Result<(usize, usize), Error>)
        requires
            old(self).wf(),
        ensures
            final(self).wf(),
            final(self).input == old(self).input,
            match read_string(old(self).input@, old(self).pos as int, major) {
                Ok((s, e)) => r == Ok::<(usize, usize), Error>((s as usize, e as usize)) && final(self).pos == e
                    && s <= e <= old(self).input@.len(),
                Err(e) => r matches Err(x) && x@ == e,
            },
            r is Ok ==> final(self).pos > old(self).pos,
    {
        let h = self.read_head()?;
        if h.major != major || h.info >= 28 {
            return Err(Error::TypeMismatch);
        }
        let start = self.pos;
        if h.arg > (self.input.len() - start) as u64 {
            return Err(Error::EndOfInput);
        }
        let end = start + h.arg as usize;
        self.pos = end;
        Ok((start, end))
    }

    /// Decodes a value of shape `sh`.
    pub fn decode(&mut self, sh: &Shape) -> (r: Result<Value<'a>, Error>)
        requires
            old(self).wf(),
        ensures
            final(self).wf(),
            final(self).input == old(self).input,
            match dec_value(*sh, old(self).input@, old(self).pos as int) {
                Ok((v, q)) => r matches Ok(x) && x@ == v && final(self).pos == q,
                Err(e) => r matches Err(x) && x@ == e,
            },
            r is Ok ==> final(self).pos > old(self).pos,
        decreases sh, 0int, 0int,
    {
        match sh {
            Shape::UInt => {
                let n = self.read_uint()?;
                Ok(Value::UInt(n))
            },
            Shape::Bool => {
                if self.pos >= self.input.len() {
                    return Err(Error::EndOfInput);
                }
                let b = self.input[self.pos];
                if b == TRUE_BYTE {
                    self.pos = self.pos + 1;
                    Ok(Value::Bool(true))
                } else if b == FALSE_BYTE {
                    self.pos = self.pos + 1;
                    Ok(Value::Bool(false))
                } else {
                    Err(Error::TypeMismatch)
                }
            },
            Shape::Bytes => {
                let (s, e) = self.read_string(MAJOR_BYTES)?;
                Ok(Value::Bytes(vstd::slice::slice_to_vec(vstd::slice::slice_subrange(self.input, s, e))))
            },
            Shape::Text => {
                let (s, e) = self.read_string(MAJOR_TEXT)?;
                Ok(Value::Text(vstd::slice::slice_to_vec(vstd::slice::slice_subrange(self.input, s, e))))
            },
            Shape::BorrowedBytes => {
                let (s, e) = self.read_string(MAJOR_BYTES)?;
                Ok(Value::BorrowedBytes(vstd::slice::slice_subrange(self.input, s, e)))
            },
            Shape::BorrowedText => {
                let (s, e) = self.read_string(MAJOR_TEXT)?;
                Ok(Value::BorrowedText(vstd::slice::slice_subrange(self.input, s, e)))
            },
            Shape::Struct(ss) => {
                if ss.attrs.transparent {
                    if ss.fields.len() == 1 {
                        let v = self.decode_field(&ss.fields[0])?;
                        let vs = vec![v];
                        proof {
                            lemma_record_view(vs);
                            assert(models(vs@) =~= seq![v@]);
                        }
                        Ok(Value::Record(vs))
                    } else {
                        Err(Error::Message(String::from_str("transparent type needs exactly one field")))
                    }
                } else {
                    let mut prefix = ss.name.clone();
                    prefix.append("::");
                    let vs = self.decode_fields(&ss.fields, ss.attrs.encoding, &prefix)?;
                    proof {
                        lemma_record_view(vs);
                    }
                    Ok(Value::Record(vs))
                }
            },
            Shape::Enum(es) => self.decode_enum(es),
        }
    }

    /// Decodes one field.
    fn decode_field(&mut self, f: &FieldSpec) -> (r: Result<Value<'a>, Error>)
        requires
            old(self).wf(),
        ensures
            final(self).wf(),
            final(self).input == old(self).input,
            match dec_field(*f, old(self).input@, old(self).pos as int) {
                Ok((v, q)) => r matches Ok(x) && x@ == v && final(self).pos == q,
                Err(e) => r matches Err(x) && x@ == e,
            },
            r is Ok ==> final(self).pos > old(self).pos,
        decreases f, 0int, 0int,
    {
        if f.optional && self.pos < self.input.len() && self.input[self.pos] == NULL_BYTE {
            self.pos = self.pos + 1;
            return Ok(Value::Null);
        }
        match &f.codec {
            Codec::Custom { decode: Some(s), .. } => self.decode(s),
            _ => self.decode(&f.shape),
        }
    }

    /// Decodes the fields of a struct or variant framed as `enc`.
    fn decode_fields(&mut self, fields: &Vec<FieldSpec>, enc: TypeEncoding, prefix: &String) -> (r: Result<
        Vec<Value<'a>>,
        Error,
    >)
        requires
            old(self).wf(),
        ensures
            final(self).wf(),
            final(self).input == old(self).input,
            match dec_fields(fields@, enc, prefix@, old(self).input@, old(self).pos as int) {
                Ok((vs, q)) => r matches Ok(x) && models(x@) == vs && final(self).pos == q,
                Err(e) => r matches Err(x) && x@ == e,
            },
            r is Ok ==> final(self).pos > old(self).pos,
        decreases fields@, 2int, 0int,
    {
        let ghost inp = self.input@;
        let h = self.read_head()?;
        let major = match enc {
            TypeEncoding::Array => MAJOR_ARRAY,
            TypeEncoding::Keyed => MAJOR_MAP,
        };
        if h.major != major || (h.info >= 28 && h.info != INDEFINITE) {
            return Err(Error::TypeMismatch);
        }
        let ghost q0 = self.pos;
        let ghost init = init_slots(fields@);
        let mut filled: Vec<bool> = Vec::new();
        let mut vals: Vec<Value<'a>> = Vec::new();
        let mut k: usize = 0;
        while k < fields.len()
            invariant
                k <= fields@.len(),
                filled@.len() == k,
                vals@.len() == k,
                forall|j: int| 0 <= j < k ==> filled@[j] == fields@[j].optional,
                forall|j: int| 0 <= j < k ==> vals@[j]@ == ValueModel::Null,
            decreases fields.len() - k,
        {
            filled.push(fields[k].optional);
            vals.push(Value::Null);
            k = k + 1;
        }
        proof {
            assert(filled@ =~= init.filled);
            assert(models(vals@) =~= init.vals);
        }
        let ghost whole = dec_fields(fields@, enc, prefix@, inp, old(self).pos as int);
        if h.info == INDEFINITE {
            assert(whole == conclude(fields@, prefix@, fill_indefinite(fields@, enc, inp, q0 as int, 0, init)));
            let mut i: u64 = 0;
            loop
                invariant_except_break
                    fill_indefinite(fields@, enc, inp, q0 as int, 0, init)
                        == fill_indefinite(fields@, enc, inp, self.pos as int, i as nat,
                            Slots { filled: filled@, vals: models(vals@) }),
                invariant
                    whole == dec_fields(fields@, enc, prefix@, old(self).input@, old(self).pos as int),
                    whole == conclude(fields@, prefix@, fill_indefinite(fields@, enc, inp, q0 as int, 0, init)),
                    self.wf(),
                    self.input == old(self).input,
                    self.input@ == inp,
                    q0 <= self.pos,
                    i <= self.pos - q0,
                    filled@.len() == fields@.len(),
                    vals@.len() == fields@.len(),
                ensures
                    fill_indefinite(fields@, enc, inp, q0 as int, 0, init)
                        == Ok::<(Slots, int), ErrorModel>((Slots { filled: filled@, vals: models(vals@) }, self.pos as int)),
                decreases inp.len() - self.pos,
            {
                if self.pos >= self.input.len() {
                    return Err(Error::EndOfInput);
                }
                if self.input[self.pos] == BREAK_BYTE {
                    self.pos = self.pos + 1;
                    break;
                }
                self.decode_step(fields, enc, i, &mut filled, &mut vals)?;
                i = i + 1;
            }
        } else {
            let n = h.arg;
            assert(whole == conclude(fields@, prefix@, fill_definite(fields@, enc, inp, q0 as int, 0, n as nat, init)));
            let mut i: u64 = 0;
            while i < n
                invariant
                    whole == dec_fields(fields@, enc, prefix@, old(self).input@, old(self).pos as int),
                    whole == conclude(fields@, prefix@, fill_definite(fields@, enc, inp, q0 as int, 0, n as nat, init)),
                    self.wf(),
                    self.input == old(self).input,
                    self.input@ == inp,
                    q0 <= self.pos,
                    i <= n,
                    filled@.len() == fields@.len(),
                    vals@.len() == fields@.len(),
                    fill_definite(fields@, enc, inp, q0 as int, 0, n as nat, init)
                        == fill_definite(fields@, enc, inp, self.pos as int, i as nat, n as nat,
                            Slots { filled: filled@, vals: models(vals@) }),
                decreases n - i,
            {
                self.decode_step(fields, enc, i, &mut filled, &mut vals)?;
                i = i + 1;
            }
        }
        let ghost fin = Slots { filled: filled@, vals: models(vals@) };
        assert(whole == conclude(fields@, prefix@, Ok::<(Slots, int), ErrorModel>((fin, self.pos as int))));
        let mut k: usize = 0;
        while k < fields.len()
            invariant
                whole == dec_fields(fields@, enc, prefix@, old(self).input@, old(self).pos as int),
                whole == conclude(fields@, prefix@, Ok::<(Slots, int), ErrorModel>((fin, self.pos as int))),
                fin == (Slots { filled: filled@, vals: models(vals@) }),
                self.wf(),
                self.input == old(self).input,
                k <= fields@.len(),
                filled@.len() == fields@.len(),
                first_empty(filled@, 0) == first_empty(filled@, k as int),
            decreases fields.len() - k,
        {
            if !filled[k] {
                let name = qualified(prefix, &fields[k].name);
                return Err(Error::MissingValue(fields[k].index, name));
            }
            k = k + 1;
        }
        Ok(vals)
    }

    /// Decodes one entry of a container: the item at position `i` of an
    /// array, or one key and value of a map.
    fn decode_step(
        &mut self,
        fields: &Vec<FieldSpec>,
        enc: TypeEncoding,
        i: u64,
        filled: &mut Vec<bool>,
        vals: &mut Vec<Value<'a>>,
    ) -> (r: Result<(), Error>)
        requires
            old(self).wf(),
            old(filled)@.len() == fields@.len(),
            old(vals)@.len() == fields@.len(),
        ensures
            final(self).wf(),
            final(self).input == old(self).input,
            final(filled)@.len() == fields@.len(),
            final(vals)@.len() == fields@.len(),
            match step(fields@, enc, old(self).input@, old(self).pos as int, i as nat,
                Slots { filled: old(filled)@, vals: models(old(vals)@) }) {
                Ok((s, q)) => r is Ok && final(filled)@ == s.filled && models(final(vals)@) == s.vals
                    && final(self).pos == q,
                Err(e) => r matches Err(x) && x@ == e,
            },
            r is Ok ==> final(self).pos > old(self).pos,
        decreases fields@, 0int, 0int,
    {
        let key: u64 = match enc {
            TypeEncoding::Array => i,
            TypeEncoding::Keyed => self.read_u32()? as u64,
        };
        let p = self.pos;
        match field_position(fields, key) {
            None => self.skip(),
            Some(k) => {
                proof {
                    crate::schema::lemma_find_field(fields@, key as int);
                }
                match self.decode_field(&fields[k]) {
                    Ok(v) => {
                        let ghost old_vals = vals@;
                        filled.set(k, true);
                        vals.set(k, v);
                        proof {
                            assert(models(vals@) =~= models(old_vals).update(k as int, v@));
                        }
                        Ok(())
                    },
                    Err(Error::UnknownVariant(t)) => {
                        if fields[k].optional {
                            self.pos = p;
                            self.skip()
                        } else {
                            Err(Error::UnknownVariant(t))
                        }
                    },
                    Err(e) => Err(e),
                }
            },
        }
    }

    /// Decodes an enum value.
    fn decode_enum(&mut self, es: &EnumSpec) -> (r: Result<Value<'a>, Error>)
        requires
            old(self).wf(),
        ensures
            final(self).wf(),
            final(self).input == old(self).input,
            match dec_enum(*es, old(self).input@, old(self).pos as int) {
                Ok((v, q)) => r matches Ok(x) && x@ == v && final(self).pos == q,
                Err(e) => r matches Err(x) && x@ == e,
            },
            r is Ok ==> final(self).pos > old(self).pos,
        decreases es, 0int, 0int,
    {
        if !es.attrs.index_only {
            let h = self.read_head()?;
            if h.major != MAJOR_ARRAY || (h.info >= 28 && h.info != INDEFINITE) {
                return Err(Error::TypeMismatch);
            }
            if h.info == INDEFINITE || h.arg != 2 {
                return Err(Error::Message(String::from_str("expected enum (2-element array)")));
            }
        }
        let tag = self.read_u32()?;
        match variant_position(&es.variants, tag) {
            None => Err(Error::UnknownVariant(tag)),
            Some(k) => {
                proof {
                    crate::schema::lemma_find_variant(es.variants@, tag as int);
                }
                self.decode_variant(&es.variants[k], es.attrs, &es.name)
            },
        }
    }

    /// Decodes the payload of variant `v` of an enum named `ename`.
    fn decode_variant(&mut self, v: &VariantSpec, attrs: TypeAttributes, ename: &String) -> (r: Result<
        Value<'a>,
        Error,
    >)
        requires
            old(self).wf(),
        ensures
            final(self).wf(),
            final(self).input == old(self).input,
            match dec_variant(*v, attrs, ename@, old(self).input@, old(self).pos as int) {
                Ok((x, q)) => r matches Ok(y) && y@ == x && final(self).pos == q,
                Err(e) => r matches Err(y) && y@ == e,
            },
            r is Ok ==> final(self).pos >= old(self).pos,
        decreases v, 0int, 0int,
    {
        let enc = match v.encoding {
            Some(e) => e,
            None => attrs.encoding,
        };
        match &v.kind {
            VariantKind::Unit => {
                if !attrs.index_only {
                    self.skip()?;
                }
                let vs: Vec<Value<'a>> = Vec::new();
                proof {
                    lemma_variant_view(v.index, vs);
                    assert(models(vs@) =~= Seq::<ValueModel>::empty());
                }
                Ok(Value::Variant(v.index, vs))
            },
            VariantKind::Tuple(fs) | VariantKind::Named(fs) => {
                let mut prefix = ename.clone();
                prefix.append("::");
                prefix.append(v.name.as_str());
                prefix.append("::");
                let vs = self.decode_fields(fs, enc, &prefix)?;
                proof {
                    lemma_variant_view(v.index, vs);
                }
                Ok(Value::Variant(v.index, vs))
            },
        }
    }
}

} // verus!
