//! Whole-buffer entry points.
use vstd::prelude::*;
use crate::decode::dec_value;
use crate::encode::enc_value;
use crate::error::{Error, ErrorModel};
use crate::schema::Shape;
use crate::value::Value;
use crate::wire::{Decoder, Encoder};

verus! {

/// Decodes one value of shape `sh` from the start of `bytes`. What follows
/// that value is left unread.
pub fn decode<'a>(sh: &Shape, bytes: &'a [u8]) -> (r: Result<Value<'a>, Error>)
    ensures
        match dec_value(*sh, bytes@, 0) {
            Ok((v, _)) => r matches Ok(x) && x@ == v,
            Err(e) => r matches Err(x) && x@ == e,
        },
{
    let mut d = Decoder::new(bytes);
    d.decode(sh)
}

/// The bytes of `v` encoded as shape `sh`.
pub fn encode(sh: &Shape, v: &Value) -> (r: Result<Vec<u8>, Error>)
    ensures
        match enc_value(*sh, v@) {
            Some(b) => r matches Ok(x) && x@ == b,
            None => r matches Err(x) && x@ == ErrorModel::TypeMismatch,
        },
{
    let mut e = Encoder::new();
    e.encode(sh, v)?;
    proof {
        assert(Seq::<u8>::empty() + enc_value(*sh, v@).unwrap() =~= enc_value(*sh, v@).unwrap());
    }
    Ok(e.into_bytes())
}

} // verus!
