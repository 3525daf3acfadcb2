//! The byte-level layer: data item headers, leaf items and skipping.
use vstd::prelude::*;
use crate::error::{Error, ErrorModel};

verus! {

pub const MAJOR_UINT: u8 = 0;
pub const MAJOR_BYTES: u8 = 2;
pub const MAJOR_TEXT: u8 = 3;
pub const MAJOR_ARRAY: u8 = 4;
pub const MAJOR_MAP: u8 = 5;
pub const MAJOR_TAG: u8 = 6;
pub const MAJOR_SIMPLE: u8 = 7;

/// Additional information that marks an indefinite-length item.
pub const INDEFINITE: u8 = 31;
pub const FALSE_BYTE: u8 = 0xf4;
pub const TRUE_BYTE: u8 = 0xf5;
pub const NULL_BYTE: u8 = 0xf6;
pub const BREAK_BYTE: u8 = 0xff;

pub open spec fn pow256(k: nat) -> nat
    decreases k,
{
    if k == 0 { 1 } else { 256 * pow256((k - 1) as nat) }
}

/// The number that a sequence of bytes spells, most significant byte first.
pub open spec fn be_value(s: Seq<u8>) -> nat
    decreases s.len(),
{
    if s.len() == 0 { 0 } else { be_value(s.drop_last()) * 256 + s.last() as nat }
}

/// The `k` low-order bytes of `n`, most significant first.
pub open spec fn be_bytes(n: nat, k: nat) -> Seq<u8>
    decreases k,
{
    if k == 0 { seq![] } else { be_bytes(n / 256, (k - 1) as nat).push((n % 256) as u8) }
}

/// How many argument bytes follow an initial byte with additional information `info`.
pub open spec fn arg_width(info: u8) -> nat {
    if info == 24 { 1 } else if info == 25 { 2 } else if info == 26 { 4 } else if info == 27 { 8 } else { 0 }
}

/// The additional information of the shortest header for argument `n`.
pub open spec fn info_for(n: u64) -> u8 {
    if n < 24 { n as u8 }
    else if n < 0x100 { 24 }
    else if n < 0x1_0000 { 25 }
    else if n < 0x1_0000_0000 { 26 }
    else { 27 }
}

/// The header of a definite item of major type `major` with argument `n`, in
/// its shortest form.
pub open spec fn head(major: u8, n: u64) -> Seq<u8> {
    seq![(major * 32 + info_for(n)) as u8] + be_bytes(n as nat, arg_width(info_for(n)))
}

/// A header as it stands at a position of the input.
pub struct Head {
    pub major: u8,
    /// Additional information: below 28 a definite argument, 31 indefinite length.
    pub info: u8,
    pub arg: u64,
}

/// The header at position `p`, and the position after it.
pub open spec fn parse_head(inp: Seq<u8>, p: int) -> Result<(Head, int), ErrorModel> {
    if p < 0 || p >= inp.len() {
        Err(ErrorModel::EndOfInput)
    } else {
        let b = inp[p];
        let major = b / 32;
        let info = b % 32;
        if info < 24 {
            Ok((Head { major, info, arg: info as u64 }, p + 1))
        } else if info < 28 {
            let w = arg_width(info);
            if p + 1 + w > inp.len() {
                Err(ErrorModel::EndOfInput)
            } else {
                Ok((Head { major, info, arg: be_value(inp.subrange(p + 1, p + 1 + w)) as u64 }, p + 1 + w))
            }
        } else if info == 31 {
            Ok((Head { major, info, arg: 0 }, p + 1))
        } else {
            Err(ErrorModel::Malformed)
        }
    }
}

/// The position after the one data item that starts at `p`.
pub open spec fn skip_item(inp: Seq<u8>, p: int) -> Result<int, ErrorModel>
    decreases inp.len() - p, 0int,
{
    match parse_head(inp, p) {
        Err(e) => Err(e),
        Ok((h, q)) => {
            if q <= p || q > inp.len() {
                Err(ErrorModel::Malformed)
            } else if h.info == 31 {
                if h.major == MAJOR_UINT || h.major == 1 || h.major == MAJOR_TAG || h.major == MAJOR_SIMPLE {
                    Err(ErrorModel::Malformed)
                } else {
                    skip_to_break(inp, q)
                }
            } else if h.major == MAJOR_BYTES || h.major == MAJOR_TEXT {
                if q + h.arg > inp.len() { Err(ErrorModel::EndOfInput) } else { Ok(q + h.arg) }
            } else if h.major == MAJOR_ARRAY {
                skip_items(inp, q, h.arg as nat)
            } else if h.major == MAJOR_MAP {
                skip_items(inp, q, 2 * h.arg as nat)
            } else if h.major == MAJOR_TAG {
                skip_item(inp, q)
            } else {
                Ok(q)
            }
        },
    }
}

/// The position after `n` consecutive data items that start at `p`.
pub open spec fn skip_items(inp: Seq<u8>, p: int, n: nat) -> Result<int, ErrorModel>
    decreases inp.len() - p, n + 1,
{
    if n == 0 {
        Ok(p)
    } else if p >= inp.len() {
        Err(ErrorModel::EndOfInput)
    } else {
        match skip_item(inp, p) {
            Err(e) => Err(e),
            Ok(q) => if q < p || q > inp.len() { Err(ErrorModel::Malformed) } else { skip_items(inp, q, (n - 1) as nat) },
        }
    }
}

/// The position after the break marker that ends a run of data items starting at `p`.
pub open spec fn skip_to_break(inp: Seq<u8>, p: int) -> Result<int, ErrorModel>
    decreases inp.len() - p, 1int,
{
    if p < 0 || p >= inp.len() {
        Err(ErrorModel::EndOfInput)
    } else if inp[p] == BREAK_BYTE {
        Ok(p + 1)
    } else {
        match skip_item(inp, p) {
            Err(e) => Err(e),
            Ok(q) => if q <= p || q > inp.len() { Err(ErrorModel::Malformed) } else { skip_to_break(inp, q) },
        }
    }
}

pub proof fn lemma_be_value_push(s: Seq<u8>, b: u8)
    ensures
        be_value(s.push(b)) == be_value(s) * 256 + b as nat,
{
    assert(s.push(b).drop_last() =~= s);
}

pub proof fn lemma_be_value_bound(s: Seq<u8>)
    ensures
        be_value(s) < pow256(s.len()),
    decreases s.len(),
{
    if s.len() > 0 {
        lemma_be_value_bound(s.drop_last());
        let a = be_value(s.drop_last());
        let p = pow256(s.drop_last().len());
        let l = s.last() as nat;
        assert(a * 256 + l < 256 * p) by (nonlinear_arith)
            requires a < p, l < 256;
    }
}

/// Reading back the bytes of a number gives the number.
pub proof fn lemma_be_round_trip(n: nat, k: nat)
    requires
        n < pow256(k),
    ensures
        be_value(be_bytes(n, k)) == n,
        be_bytes(n, k).len() == k,
    decreases k,
{
    if k > 0 {
        let p = pow256((k - 1) as nat);
        assert(n / 256 < p) by (nonlinear_arith)
            requires n < 256 * p;
        lemma_be_round_trip(n / 256, (k - 1) as nat);
        lemma_be_value_push(be_bytes(n / 256, (k - 1) as nat), (n % 256) as u8);
        assert((n / 256) * 256 + n % 256 == n) by (nonlinear_arith);
    }
}

pub proof fn lemma_pow256_values()
    ensures
        pow256(0) == 1,
        pow256(1) == 0x100,
        pow256(2) == 0x1_0000,
        pow256(4) == 0x1_0000_0000,
        pow256(8) == 0x1_0000_0000_0000_0000,
{
    reveal_with_fuel(pow256, 9);
}

/// A header reads back as the major type and argument it was written with.
pub proof fn lemma_head_round_trip(major: u8, n: u64, inp: Seq<u8>, p: int)
    requires
        major < 8,
        0 <= p,
        p + head(major, n).len() <= inp.len(),
        inp.subrange(p, p + head(major, n).len()) == head(major, n),
    ensures
        parse_head(inp, p) == Ok::<(Head, int), ErrorModel>((Head { major, info: info_for(n), arg: n }, p + head(major, n).len())),
        head(major, n).len() == 1 + arg_width(info_for(n)),
{
    let info = info_for(n);
    let w = arg_width(info);
    lemma_pow256_values();
    if w > 0 {
        lemma_be_round_trip(n as nat, w);
    }
    let h = head(major, n);
    assert(h[0] == inp[p]);
    let b = (major * 32 + info) as u8;
    assert(b / 32 == major && b % 32 == info) by (nonlinear_arith)
        requires major < 8, info < 28, b == major * 32 + info;
    assert(inp.subrange(p + 1, p + 1 + w) =~= be_bytes(n as nat, w)) by {
        assert forall|i: int| 0 <= i < w implies inp.subrange(p + 1, p + 1 + w)[i] == be_bytes(n as nat, w)[i] by {
            assert(h[1 + i] == inp.subrange(p, p + h.len())[1 + i]);
        }
    }
}

/// A cursor over an input buffer that it reads from, front to back.
pub struct Decoder<'a> {
    pub input: &'a [u8],
    pub pos: usize,
}

impl<'a> Decoder<'a> {
    pub open spec fn wf(&self) -> bool {
        self.pos <= self.input@.len()
    }

    /// A decoder positioned at the start of `input`.
    pub fn new(input: &'a [u8]) -> (r: Decoder<'a>)
        ensures
            r.wf(),
            r.input@ == input@,
            r.pos == 0,
    {
        Decoder { input, pos: 0 }
    }

    /// The current position in the input.
    pub fn position(&self) -> (r: usize)
        ensures
            r == self.pos,
    {
        self.pos
    }

    /// The byte at the current position, without consuming it.
    pub fn peek(&self) -> (r: Result<u8, Error>)
        requires
            self.wf(),
        ensures
            self.pos < self.input@.len() ==> r == Ok::<u8, Error>(self.input@[self.pos as int]),
            self.pos >= self.input@.len() ==> r == Err::<u8, Error>(Error::EndOfInput),
    {
        if self.pos < self.input.len() {
            Ok(self.input[self.pos])
        } else {
            Err(Error::EndOfInput)
        }
    }

    /// Reads the header at the current position.
    pub fn read_head(&mut self) -> (r: Result<Head, Error>)
        requires
            old(self).wf(),
        ensures
            final(self).wf(),
            final(self).input == old(self).input,
            match parse_head(old(self).input@, old(self).pos as int) {
                Ok((h, q)) => r == Ok::<Head, Error>(h) && final(self).pos == q,
                Err(e) => r matches Err(x) && x@ == e,
            },
    {
        let inp = self.input;
        let p = self.pos;
        if p >= inp.len() {
            return Err(Error::EndOfInput);
        }
        let b = inp[p];
        let major = b / 32;
        let info = b % 32;
        if info < 24 {
            self.pos = p + 1;
            return Ok(Head { major, info, arg: info as u64 });
        }
        if info == 31 {
            self.pos = p + 1;
            return Ok(Head { major, info, arg: 0 });
        }
        if info >= 28 {
            return Err(Error::Malformed);
        }
        let w: usize = if info == 24 { 1 } else if info == 25 { 2 } else if info == 26 { 4 } else { 8 };
        assert(w == arg_width(info));
        if w > inp.len() - p - 1 {
            return Err(Error::EndOfInput);
        }
        let mut acc: u64 = 0;
        let mut j: usize = 0;
        proof {
            lemma_pow256_values();
            assert(inp@.subrange(p + 1, p + 1) =~= Seq::<u8>::empty());
        }
        while j < w
            invariant
                w <= 8,
                j <= w,
                p + 1 + w <= inp@.len(),
                p + 1 + w <= inp.len(),
                acc as nat == be_value(inp@.subrange(p + 1, p + 1 + j)),
                pow256(8) == 0x1_0000_0000_0000_0000,
            decreases w - j,
        {
            proof {
                lemma_be_value_bound(inp@.subrange(p + 1, p + 1 + j));
                lemma_be_value_push(inp@.subrange(p + 1, p + 1 + j), inp@[p + 1 + j]);
                assert(inp@.subrange(p + 1, p + 1 + j + 1) =~= inp@.subrange(p + 1, p + 1 + j).push(inp@[p + 1 + j]));
                lemma_pow_mono(j as nat, 7);
                assert(pow256(8) == 256 * pow256(7));
                let a = acc as nat;
                let q = pow256(j as nat);
                assert(a * 256 + 255 < pow256(8)) by (nonlinear_arith)
                    requires a < q, q <= pow256(7), pow256(8) == 256 * pow256(7);
            }
            acc = acc * 256 + inp[p + 1 + j] as u64;
            j = j + 1;
        }
        self.pos = p + 1 + w;
        Ok(Head { major, info, arg: acc })
    }

    /// Consumes one data item, whatever it holds. Every loop here ends within
    /// the input's length; the depth of recursion follows the nesting of the
    /// input, so input from an untrusted source should be bounded in length.
    pub fn skip(&mut self) -> (r: Result<(), Error>)
        requires
            old(self).wf(),
        ensures
            final(self).wf(),
            final(self).input == old(self).input,
            match skip_item(old(self).input@, old(self).pos as int) {
                Ok(q) => r is Ok && final(self).pos == q,
                Err(e) => r matches Err(x) && x@ == e,
            },
            r is Ok ==> final(self).pos > old(self).pos,
        decreases old(self).input@.len() - old(self).pos, 0int,
    {
        let h = self.read_head()?;
        let q = self.pos;
        if h.info == INDEFINITE {
            if h.major == MAJOR_UINT || h.major == 1 || h.major == MAJOR_TAG || h.major == MAJOR_SIMPLE {
                return Err(Error::Malformed);
            }
            return self.skip_until_break();
        }
        if h.major == MAJOR_BYTES || h.major == MAJOR_TEXT {
            if h.arg > (self.input.len() - q) as u64 {
                return Err(Error::EndOfInput);
            }
            self.pos = q + h.arg as usize;
            Ok(())
        } else if h.major == MAJOR_ARRAY {
            self.skip_n(h.arg, false)
        } else if h.major == MAJOR_MAP {
            self.skip_n(h.arg, true)
        } else if h.major == MAJOR_TAG {
            self.skip()
        } else {
            Ok(())
        }
    }

    /// Consumes `n` data items, or `n` pairs of them.
    fn skip_n(&mut self, n: u64, pairs: bool) -> (r: Result<(), Error>)
        requires
            old(self).wf(),
        ensures
            final(self).wf(),
            final(self).input == old(self).input,
            match skip_items(old(self).input@, old(self).pos as int, if pairs { 2 * n as nat } else { n as nat }) {
                Ok(q) => r is Ok && final(self).pos == q,
                Err(e) => r matches Err(x) && x@ == e,
            },
            r is Ok ==> final(self).pos >= old(self).pos,
        decreases old(self).input@.len() - old(self).pos, 1 + 2 * n as nat,
    {
        let ghost inp = self.input@;
        let ghost start = self.pos;
        let mut i: u64 = 0;
        while i < n
            invariant
                self.wf(),
                self.input == old(self).input,
                self.input@ == inp,
                i <= n,
                self.pos >= start,
                start == old(self).pos,
                skip_items(inp, start as int, if pairs { 2 * n as nat } else { n as nat })
                    == skip_items(inp, self.pos as int, if pairs { 2 * (n - i) as nat } else { (n - i) as nat }),
            decreases n - i,
        {
            let ghost before = self.pos;
            let ghost rem: nat = if pairs { 2 * (n - i) as nat } else { (n - i) as nat };
            assert(rem > 0);
            if self.pos >= self.input.len() {
                assert(skip_items(inp, before as int, rem) == Err::<int, ErrorModel>(ErrorModel::EndOfInput));
                return Err(Error::EndOfInput);
            }
            assert(skip_items(inp, before as int, rem) == match skip_item(inp, before as int) {
                Err(e) => Err(e),
                Ok(q) => if q < before || q > inp.len() { Err(ErrorModel::Malformed) } else { skip_items(inp, q, (rem - 1) as nat) },
            });
            self.skip()?;
            if pairs {
                let ghost mid = self.pos;
                assert(skip_items(inp, before as int, 2 * (n - i) as nat)
                    == skip_items(inp, mid as int, (2 * (n - i) - 1) as nat));
                if self.pos >= self.input.len() {
                    return Err(Error::EndOfInput);
                }
                self.skip()?;
            }
            i = i + 1;
        }
        Ok(())
    }

    /// Consumes data items up to and including a break marker.
    fn skip_until_break(&mut self) -> (r: Result<(), Error>)
        requires
            old(self).wf(),
        ensures
            final(self).wf(),
            final(self).input == old(self).input,
            match skip_to_break(old(self).input@, old(self).pos as int) {
                Ok(q) => r is Ok && final(self).pos == q,
                Err(e) => r matches Err(x) && x@ == e,
            },
            r is Ok ==> final(self).pos > old(self).pos,
        decreases old(self).input@.len() - old(self).pos, 1int,
    {
        let ghost inp = self.input@;
        loop
            invariant
                self.wf(),
                self.input == old(self).input,
                self.input@ == inp,
                self.pos >= old(self).pos,
                skip_to_break(inp, old(self).pos as int) == skip_to_break(inp, self.pos as int),
            decreases inp.len() - self.pos,
        {
            if self.pos >= self.input.len() {
                return Err(Error::EndOfInput);
            }
            if self.input[self.pos] == BREAK_BYTE {
                self.pos = self.pos + 1;
                return Ok(());
            }
            self.skip()?;
        }
    }
}

pub proof fn lemma_pow_mono(a: nat, b: nat)
    requires
        a <= b,
    ensures
        pow256(a) <= pow256(b),
    decreases b,
{
    if a < b {
        lemma_pow_mono(a, (b - 1) as nat);
    }
}

/// A writer that appends encoded bytes to a buffer it owns.
pub struct Encoder {
    pub buf: Vec<u8>,
}

impl Encoder {
    /// An encoder with an empty buffer.
    pub fn new() -> (r: Encoder)
        ensures
            r.buf@ == Seq::<u8>::empty(),
    {
        Encoder { buf: Vec::new() }
    }

    /// The bytes written so far.
    pub fn into_bytes(self) -> (r: Vec<u8>)
        ensures
            r@ == self.buf@,
    {
        self.buf
    }

    /// Appends one byte.
    pub fn byte(&mut self, b: u8)
        ensures
            final(self).buf@ == old(self).buf@.push(b),
    {
        self.buf.push(b);
    }

    /// Appends the `k` low-order bytes of `n`, most significant first.
    fn be(&mut self, n: u64, k: usize)
        requires
            k <= 8,
        ensures
            final(self).buf@ == old(self).buf@ + be_bytes(n as nat, k as nat),
        decreases k,
    {
        if k > 0 {
            self.be(n / 256, k - 1);
            self.buf.push((n % 256) as u8);
            proof {
                assert(be_bytes(n as nat, k as nat) == be_bytes(n as nat / 256, (k - 1) as nat).push((n as nat % 256) as u8));
            }
        } else {
            proof {
                assert(old(self).buf@ + be_bytes(n as nat, 0) =~= old(self).buf@);
            }
        }
    }

    /// Appends the shortest header of major type `major` with argument `n`.
    pub fn head(&mut self, major: u8, n: u64)
        requires
            major < 8,
        ensures
            final(self).buf@ == old(self).buf@ + head(major, n),
    {
        let info: u8 = if n < 24 { n as u8 } else if n < 0x100 { 24 } else if n < 0x1_0000 { 25 } else if n < 0x1_0000_0000 { 26 } else { 27 };
        let w: usize = if info == 24 { 1 } else if info == 25 { 2 } else if info == 26 { 4 } else if info == 27 { 8 } else { 0 };
        assert(info == info_for(n) && w == arg_width(info));
        self.buf.push(major * 32 + info);
        self.be(n, w);
        proof {
            assert(final(self).buf@ =~= old(self).buf@ + head(major, n));
        }
    }
}

} // verus!
