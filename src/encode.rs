//! The encode engine, and the `Encode` trait for plain Rust values.
use vstd::prelude::*;
use crate::error::{Error, ErrorModel};
use crate::schema::{find_variant, least_from, variant_position, Codec, FieldSpec, Shape, TypeEncoding, VariantKind};
use crate::value::{lemma_record_view, lemma_variant_view, models, Value, ValueModel};
use crate::wire::{
    head, Encoder, FALSE_BYTE, MAJOR_ARRAY, MAJOR_BYTES, MAJOR_MAP, MAJOR_TEXT, MAJOR_UINT, NULL_BYTE,
    TRUE_BYTE,
};

verus! {

/// A definite string of major type `major` with content `b`.
pub open spec fn string_bytes(major: u8, b: Seq<u8>) -> Option<Seq<u8>> {
    if b.len() <= u64::MAX {
        Some(head(major, b.len() as u64) + b)
    } else {
        None
    }
}

/// The bytes of `v` written as shape `sh`, or `None` where `v` does not have that shape.
pub open spec fn enc_value(sh: Shape, v: ValueModel) -> Option<Seq<u8>>
    decreases sh, 1int, 0int via enc_value_decreases
{
    match (sh, v) {
        (Shape::UInt, ValueModel::UInt(n)) => Some(head(MAJOR_UINT, n)),
        (Shape::Bool, ValueModel::Bool(b)) => Some(seq![if b { TRUE_BYTE } else { FALSE_BYTE }]),
        (Shape::Bytes, ValueModel::Bytes(b)) => string_bytes(MAJOR_BYTES, b),
        (Shape::BorrowedBytes, ValueModel::BorrowedBytes(b)) => string_bytes(MAJOR_BYTES, b),
        (Shape::Text, ValueModel::Text(b)) => string_bytes(MAJOR_TEXT, b),
        (Shape::BorrowedText, ValueModel::BorrowedText(b)) => string_bytes(MAJOR_TEXT, b),
        (Shape::Struct(ss), ValueModel::Record(vs)) => if ss.attrs.transparent {
            if ss.fields@.len() == 1 && vs.len() == 1 {
                enc_field(ss.fields@[0], vs[0])
            } else {
                None
            }
        } else {
            enc_fields(ss.fields@, ss.attrs.encoding, vs)
        },
        (Shape::Enum(es), ValueModel::Variant(t, vs)) => match find_variant(es.variants@, t as int) {
            None => None,
            Some(k) => {
                let var = es.variants@[k];
                let enc = match var.encoding {
                    Some(e) => e,
                    None => es.attrs.encoding,
                };
                let payload = match var.kind {
                    VariantKind::Unit => if vs.len() == 0 { Some(seq![NULL_BYTE]) } else { None },
                    VariantKind::Tuple(fs) => enc_fields(fs@, enc, vs),
                    VariantKind::Named(fs) => enc_fields(fs@, enc, vs),
                };
                if es.attrs.index_only {
                    if var.kind is Unit && vs.len() == 0 { Some(head(MAJOR_UINT, t as u64)) } else { None }
                } else {
                    match payload {
                        Some(b) => Some(head(MAJOR_ARRAY, 2) + head(MAJOR_UINT, t as u64) + b),
                        None => None,
                    }
                }
            },
        },
        _ => None,
    }
}

#[via_fn]
proof fn enc_value_decreases(sh: Shape, v: ValueModel) {
    if let (Shape::Enum(es), ValueModel::Variant(t, vs)) = (sh, v) {
        crate::schema::lemma_find_variant(es.variants@, t as int);
    }
}

/// One field: an absent optional field is `null`; a custom encode shape, if
/// any, replaces the field's own.
pub open spec fn enc_field(f: FieldSpec, v: ValueModel) -> Option<Seq<u8>>
    decreases f, 1int, 0int,
{
    if f.optional && v == ValueModel::Null {
        Some(seq![NULL_BYTE])
    } else {
        match f.codec {
            Codec::Custom { encode: Some(s), .. } => enc_value(*s, v),
            _ => enc_value(f.shape, v),
        }
    }
}

/// All fields framed as `enc`: a container header counting every declared
/// field, then the fields in ascending index order (in a map, each after its
/// index). In array framing the field at position `p` has index `p`, so a
/// field list whose indices are not the positions `0 .. n` has no encoding.
pub open spec fn enc_fields(fields: Seq<FieldSpec>, enc: TypeEncoding, vs: Seq<ValueModel>) -> Option<Seq<u8>>
    decreases fields, 3int, 0int,
{
    if vs.len() != fields.len() || fields.len() > u64::MAX {
        None
    } else {
        let major = if enc == TypeEncoding::Array { MAJOR_ARRAY } else { MAJOR_MAP };
        match enc_sorted(fields, enc, vs, 0) {
            Some((b, c)) => if c == fields.len() { Some(head(major, fields.len() as u64) + b) } else { None },
            None => None,
        }
    }
}

/// The map key that precedes field `f`: its index, or nothing in an array.
pub open spec fn entry_key(f: FieldSpec, enc: TypeEncoding) -> Seq<u8> {
    if enc == TypeEncoding::Array { seq![] } else { head(MAJOR_UINT, f.index as u64) }
}

/// The entries of the fields whose index is `lo` or above, in ascending
/// index order, and how many there are. In array framing the next index must
/// be `lo` itself, the position it is written at.
pub open spec fn enc_sorted(fields: Seq<FieldSpec>, enc: TypeEncoding, vs: Seq<ValueModel>, lo: int) -> Option<(Seq<u8>, nat)>
    decreases fields, 2int, 0x1_0000_0000 - lo via enc_sorted_decreases
{
    if lo < 0 || lo > u32::MAX {
        Some((seq![], 0))
    } else {
        match least_from(fields, lo) {
            None => Some((seq![], 0)),
            Some(k) => if enc == TypeEncoding::Array && fields[k].index != lo {
                None
            } else {
                match enc_field(fields[k], vs[k]) {
                    None => None,
                    Some(a) => match enc_sorted(fields, enc, vs, fields[k].index + 1) {
                        None => None,
                        Some((b, c)) => Some((entry_key(fields[k], enc) + a + b, c + 1)),
                    },
                }
            },
        }
    }
}

#[via_fn]
proof fn enc_sorted_decreases(fields: Seq<FieldSpec>, enc: TypeEncoding, vs: Seq<ValueModel>, lo: int) {
    crate::schema::lemma_least_from(fields, lo);
}

/// `a` before the bytes of `o`, and `c` more entries, if there are any.
pub open spec fn prepend_count(a: Seq<u8>, c: nat, o: Option<(Seq<u8>, nat)>) -> Option<(Seq<u8>, nat)> {
    match o {
        Some((b, d)) => Some((a + b, d + c)),
        None => None,
    }
}

impl Encoder {
    /// Encodes `v` as shape `sh`. Fails with `TypeMismatch`, and nothing is
    /// promised of the buffer, where `v` does not have that shape.
    #[verifier::rlimit(50)]
    pub fn encode(&mut self, sh: &Shape, v: &Value) -> (r: Result<(), Error>)
        ensures
            match enc_value(*sh, v@) {
                Some(b) => r is Ok && final(self).buf@ == old(self).buf@ + b,
                None => r matches Err(x) && x@ == ErrorModel::TypeMismatch,
            },
        decreases sh, 1int, 0int,
    {
        match (sh, v) {
            (Shape::UInt, Value::UInt(n)) => {
                self.head(MAJOR_UINT, *n);
                Ok(())
            },
            (Shape::Bool, Value::Bool(b)) => {
                self.byte(if *b { TRUE_BYTE } else { FALSE_BYTE });
                Ok(())
            },
            (Shape::Bytes, Value::Bytes(b)) => {
                self.string(MAJOR_BYTES, b.as_slice());
                Ok(())
            },
            (Shape::BorrowedBytes, Value::BorrowedBytes(b)) => {
                self.string(MAJOR_BYTES, b);
                Ok(())
            },
            (Shape::Text, Value::Text(b)) => {
                self.string(MAJOR_TEXT, b.as_slice());
                Ok(())
            },
            (Shape::BorrowedText, Value::BorrowedText(b)) => {
                self.string(MAJOR_TEXT, b);
                Ok(())
            },
            (Shape::Struct(ss), Value::Record(vs)) => {
                proof {
                    lemma_record_view(*vs);
                }
                if ss.attrs.transparent {
                    if ss.fields.len() == 1 && vs.len() == 1 {
                        self.encode_field(&ss.fields[0], &vs[0])
                    } else {
                        Err(Error::TypeMismatch)
                    }
                } else {
                    self.encode_fields(&ss.fields, ss.attrs.encoding, vs)
                }
            },
            (Shape::Enum(es), Value::Variant(t, vs)) => {
                proof {
                    lemma_variant_view(*t, *vs);
                }
                match variant_position(&es.variants, *t) {
                    None => Err(Error::TypeMismatch),
                    Some(k) => {
                        proof {
                            crate::schema::lemma_find_variant(es.variants@, *t as int);
                        }
                        let var = &es.variants[k];
                        let enc = match var.encoding {
                            Some(e) => e,
                            None => es.attrs.encoding,
                        };
                        if es.attrs.index_only {
                            if matches!(var.kind, VariantKind::Unit) && vs.len() == 0 {
                                self.head(MAJOR_UINT, *t as u64);
                                Ok(())
                            } else {
                                Err(Error::TypeMismatch)
                            }
                        } else {
                            match &var.kind {
                                VariantKind::Unit => {
                                    if vs.len() != 0 {
                                        return Err(Error::TypeMismatch);
                                    }
                                    self.head(MAJOR_ARRAY, 2);
                                    self.head(MAJOR_UINT, *t as u64);
                                    self.byte(NULL_BYTE);
                                    proof {
                                        assert(final(self).buf@ =~= old(self).buf@ + (head(MAJOR_ARRAY, 2)
                                            + head(MAJOR_UINT, *t as u64) + seq![NULL_BYTE]));
                                    }
                                    Ok(())
                                },
                                VariantKind::Tuple(fs) | VariantKind::Named(fs) => {
                                    let ghost before = self.buf@;
                                    self.head(MAJOR_ARRAY, 2);
                                    self.head(MAJOR_UINT, *t as u64);
                                    let ghost mid = self.buf@;
                                    let r = self.encode_fields(fs, enc, vs);
                                    proof {
                                        if let Some(b) = enc_fields(fs@, enc, models(vs@)) {
                                            assert(self.buf@ =~= before + (head(MAJOR_ARRAY, 2)
                                                + head(MAJOR_UINT, *t as u64) + b));
                                        }
                                    }
                                    r
                                },
                            }
                        }
                    },
                }
            },
            _ => Err(Error::TypeMismatch),
        }
    }

    /// Writes a definite string of major type `major`.
    fn string(&mut self, major: u8, b: &[u8])
        requires
            major < 8,
        ensures
            string_bytes(major, b@) == Some(final(self).buf@.subrange(old(self).buf@.len() as int, final(self).buf@.len() as int)),
            final(self).buf@ == old(self).buf@ + final(self).buf@.subrange(old(self).buf@.len() as int, final(self).buf@.len() as int),
    {
        self.head(major, b.len() as u64);
        let mut i: usize = 0;
        let ghost mid = self.buf@;
        while i < b.len()
            invariant
                i <= b@.len(),
                self.buf@ == mid + b@.take(i as int),
            decreases b.len() - i,
        {
            self.buf.push(b[i]);
            i = i + 1;
            proof {
                assert(self.buf@ =~= mid + b@.take(i as int));
            }
        }
        proof {
            assert(b@.take(b@.len() as int) =~= b@);
            assert(self.buf@.subrange(old(self).buf@.len() as int, self.buf@.len() as int)
                =~= head(major, b@.len() as u64) + b@);
            assert(self.buf@ =~= old(self).buf@ + self.buf@.subrange(old(self).buf@.len() as int, self.buf@.len() as int));
        }
    }

    /// Encodes one field.
    fn encode_field(&mut self, f: &FieldSpec, v: &Value) -> (r: Result<(), Error>)
        ensures
            match enc_field(*f, v@) {
                Some(b) => r is Ok && final(self).buf@ == old(self).buf@ + b,
                None => r matches Err(x) && x@ == ErrorModel::TypeMismatch,
            },
        decreases f, 1int, 0int,
    {
        if f.optional {
            if let Value::Null = v {
                self.byte(NULL_BYTE);
                return Ok(());
            }
        }
        match &f.codec {
            Codec::Custom { encode: Some(s), .. } => self.encode(s, v),
            _ => self.encode(&f.shape, v),
        }
    }

    /// Encodes all fields, framed as `enc`, in ascending index order.
    fn encode_fields(&mut self, fields: &Vec<FieldSpec>, enc: TypeEncoding, vs: &Vec<Value>) -> (r: Result<(), Error>)
        ensures
            match enc_fields(fields@, enc, models(vs@)) {
                Some(b) => r is Ok && final(self).buf@ == old(self).buf@ + b,
                None => r matches Err(x) && x@ == ErrorModel::TypeMismatch,
            },
        decreases fields@, 3int, 0int,
    {
        if vs.len() != fields.len() {
            return Err(Error::TypeMismatch);
        }
        let major = match enc {
            TypeEncoding::Array => MAJOR_ARRAY,
            TypeEncoding::Keyed => MAJOR_MAP,
        };
        self.head(major, fields.len() as u64);
        let ghost start = self.buf@.len();
        let ghost whole = enc_sorted(fields@, enc, models(vs@), 0);
        let mut lo: u64 = 0;
        let mut count: u64 = 0;
        proof {
            assert(self.buf@.subrange(start as int, self.buf@.len() as int) =~= Seq::<u8>::empty());
            assert(whole == prepend_count(Seq::<u8>::empty(), 0, whole)) by {
                if let Some((b, c)) = whole {
                    assert(Seq::<u8>::empty() + b =~= b);
                }
            }
        }
        loop
            invariant
                vs@.len() == fields@.len(),
                lo <= 0x1_0000_0000,
                count <= lo,
                start <= self.buf@.len(),
                self.buf@.subrange(0, start as int) == old(self).buf@ + head(major, fields@.len() as u64),
                whole == enc_sorted(fields@, enc, models(vs@), 0),
                whole == prepend_count(self.buf@.subrange(start as int, self.buf@.len() as int), count as nat,
                    enc_sorted(fields@, enc, models(vs@), lo as int)),
            ensures
                enc_sorted(fields@, enc, models(vs@), lo as int) == Some((Seq::<u8>::empty(), 0nat)),
            decreases 0x1_0000_0000 - lo,
        {
            if lo > u32::MAX as u64 {
                break;
            }
            let k = match crate::schema::least_field_from(fields, lo) {
                None => {
                    break;
                },
                Some(k) => k,
            };
            proof {
                crate::schema::lemma_least_from(fields@, lo as int);
            }
            let ix = fields[k].index as u64;
            if let TypeEncoding::Array = enc {
                if ix != lo {
                    return Err(Error::TypeMismatch);
                }
            }
            let ghost before = self.buf@;
            if let TypeEncoding::Keyed = enc {
                self.head(MAJOR_UINT, ix);
            }
            let ghost keyed = self.buf@;
            assert(keyed == before + entry_key(fields@[k as int], enc)) by {
                if enc == TypeEncoding::Array {
                    assert(keyed =~= before + Seq::<u8>::empty());
                }
            }
            self.encode_field(&fields[k], &vs[k])?;
            proof {
                assert(models(vs@)[k as int] == vs@[k as int]@);
                let a = self.buf@.subrange(keyed.len() as int, self.buf@.len() as int);
                assert(self.buf@.subrange(0, start as int) =~= before.subrange(0, start as int));
                let done = before.subrange(start as int, before.len() as int);
                assert(self.buf@.subrange(start as int, self.buf@.len() as int)
                    =~= done + entry_key(fields@[k as int], enc) + a);
                if let Some((rest, c)) = enc_sorted(fields@, enc, models(vs@), ix + 1) {
                    assert(done + (entry_key(fields@[k as int], enc) + a + rest)
                        =~= done + entry_key(fields@[k as int], enc) + a + rest);
                }
            }
            lo = ix + 1;
            count = count + 1;
        }
        proof {
            assert(self.buf@.subrange(start as int, self.buf@.len() as int) + Seq::<u8>::empty()
                =~= self.buf@.subrange(start as int, self.buf@.len() as int));
            assert(self.buf@ =~= self.buf@.subrange(0, start as int) + self.buf@.subrange(start as int, self.buf@.len() as int));
        }
        if count != fields.len() as u64 {
            return Err(Error::TypeMismatch);
        }
        Ok(())
    }
}

/// A type that can be encoded. Each value stands as a single data item.
pub trait Encode {
    /// The bytes that encode this value.
    spec fn encoding(&self) -> Seq<u8>;

    /// Appends the encoding of this value.
    fn encode(&self, e: &mut Encoder) -> (r: Result<(), Error>)
        ensures
            r is Ok,
            final(e).buf@ == old(e).buf@ + self.encoding(),
    ;
}

impl Encode for u8 {
    open spec fn encoding(&self) -> Seq<u8> {
        head(MAJOR_UINT, *self as u64)
    }

    fn encode(&self, e: &mut Encoder) -> (r: Result<(), Error>) {
        e.head(MAJOR_UINT, *self as u64);
        Ok(())
    }
}

impl Encode for u16 {
    open spec fn encoding(&self) -> Seq<u8> {
        head(MAJOR_UINT, *self as u64)
    }

    fn encode(&self, e: &mut Encoder) -> (r: Result<(), Error>) {
        e.head(MAJOR_UINT, *self as u64);
        Ok(())
    }
}

impl Encode for u32 {
    open spec fn encoding(&self) -> Seq<u8> {
        head(MAJOR_UINT, *self as u64)
    }

    fn encode(&self, e: &mut Encoder) -> (r: Result<(), Error>) {
        e.head(MAJOR_UINT, *self as u64);
        Ok(())
    }
}

impl Encode for u64 {
    open spec fn encoding(&self) -> Seq<u8> {
        head(MAJOR_UINT, *self)
    }

    fn encode(&self, e: &mut Encoder) -> (r: Result<(), Error>) {
        e.head(MAJOR_UINT, *self);
        Ok(())
    }
}

impl Encode for usize {
    open spec fn encoding(&self) -> Seq<u8> {
        head(MAJOR_UINT, *self as u64)
    }

    fn encode(&self, e: &mut Encoder) -> (r: Result<(), Error>) {
        e.head(MAJOR_UINT, *self as u64);
        Ok(())
    }
}

impl Encode for bool {
    open spec fn encoding(&self) -> Seq<u8> {
        seq![if *self { TRUE_BYTE } else { FALSE_BYTE }]
    }

    fn encode(&self, e: &mut Encoder) -> (r: Result<(), Error>) {
        e.byte(if *self { TRUE_BYTE } else { FALSE_BYTE });
        Ok(())
    }
}

impl<T: Encode> Encode for Option<T> {
    /// `null` when absent.
    open spec fn encoding(&self) -> Seq<u8> {
        match self {
            Some(x) => x.encoding(),
            None => seq![NULL_BYTE],
        }
    }

    fn encode(&self, e: &mut Encoder) -> (r: Result<(), Error>) {
        match self {
            Some(x) => x.encode(e),
            None => {
                e.byte(NULL_BYTE);
                Ok(())
            },
        }
    }
}

/// The encodings of a sequence of values, one after another.
pub open spec fn encodings<T: Encode>(s: Seq<T>) -> Seq<u8>
    decreases s.len(),
{
    if s.len() == 0 {
        seq![]
    } else {
        encodings(s.drop_last()) + s.last().encoding()
    }
}

impl<T: Encode> Encode for Vec<T> {
    /// An array of the elements.
    open spec fn encoding(&self) -> Seq<u8> {
        head(MAJOR_ARRAY, self@.len() as u64) + encodings(self@)
    }

    fn encode(&self, e: &mut Encoder) -> (r: Result<(), Error>) {
        e.head(MAJOR_ARRAY, self.len() as u64);
        let ghost start = e.buf@;
        let mut i: usize = 0;
        proof {
            assert(self@.take(0) =~= Seq::<T>::empty());
            assert(start + encodings(self@.take(0)) =~= start);
        }
        while i < self.len()
            invariant
                i <= self@.len(),
                e.buf@ == start + encodings(self@.take(i as int)),
            decreases self.len() - i,
        {
            self[i].encode(e)?;
            proof {
                assert(self@.take(i + 1).drop_last() =~= self@.take(i as int));
                assert(e.buf@ =~= start + encodings(self@.take(i + 1)));
            }
            i = i + 1;
        }
        proof {
            assert(self@.take(self@.len() as int) =~= self@);
            assert(e.buf@ =~= old(e).buf@ + self.encoding());
        }
        Ok(())
    }
}

} // verus!
