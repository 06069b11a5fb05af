//! The byte layout of the wire format's fields: big-endian integers, and
//! strings, byte strings and lists each behind a `u32` length or count.
//!
//! A decoder takes the input and returns the value with the rest of the
//! input, so that the decoders of consecutive fields chain.
use vstd::prelude::*;
use vstd::slice::*;
use vstd::string::*;
use vstd::utf8::*;

verus! {

/// Why a message could not be encoded or decoded.
#[derive(Debug, Clone, Copy, PartialEq, Eq)]
pub enum CodecError {
    /// The input ends inside a field.
    Truncated,
    /// The first byte is no known message type.
    UnknownMessageType,
    /// A string field is not valid UTF-8.
    InvalidUtf8,
    /// Bytes follow the message inside its frame.
    TrailingBytes,
    /// A length or a count does not fit in a `u32`.
    TooLarge,
}

pub open spec fn u32_bytes(x: u32) -> Seq<u8> {
    seq![
        (x / 0x1000000) as u8,
        ((x / 0x10000) % 0x100) as u8,
        ((x / 0x100) % 0x100) as u8,
        (x % 0x100) as u8,
    ]
}

pub open spec fn u32_from(b0: u8, b1: u8, b2: u8, b3: u8) -> u32 {
    (b0 as int * 0x1000000 + b1 as int * 0x10000 + b2 as int * 0x100 + b3 as int) as u32
}

/// The two's complement bits of an `i32`.
pub open spec fn i32_bits(x: i32) -> u32 {
    if x >= 0 {
        x as u32
    } else {
        (x as int + 0x100000000) as u32
    }
}

pub open spec fn i32_of_bits(u: u32) -> i32 {
    if u < 0x80000000 {
        u as i32
    } else {
        (u as int - 0x100000000) as i32
    }
}

pub open spec fn dec_u32(b: Seq<u8>) -> Result<(u32, Seq<u8>), CodecError> {
    if b.len() < 4 {
        Err(CodecError::Truncated)
    } else {
        Ok((u32_from(b[0], b[1], b[2], b[3]), b.skip(4)))
    }
}

pub open spec fn enc_i32(x: i32) -> Seq<u8> {
    u32_bytes(i32_bits(x))
}

pub open spec fn dec_i32(b: Seq<u8>) -> Result<(i32, Seq<u8>), CodecError> {
    match dec_u32(b) {
        Ok((u, rest)) => Ok((i32_of_bits(u), rest)),
        Err(e) => Err(e),
    }
}

pub open spec fn enc_bool(x: bool) -> Seq<u8> {
    seq![if x { 1u8 } else { 0u8 }]
}

/// A bool is one byte: 1 is true, anything else false.
pub open spec fn dec_bool(b: Seq<u8>) -> Result<(bool, Seq<u8>), CodecError> {
    if b.len() < 1 {
        Err(CodecError::Truncated)
    } else {
        Ok((b[0] == 1, b.skip(1)))
    }
}

pub open spec fn enc_bytes(b: Seq<u8>) -> Seq<u8> {
    u32_bytes(b.len() as u32) + b
}

pub open spec fn dec_bytes(b: Seq<u8>) -> Result<(Seq<u8>, Seq<u8>), CodecError> {
    match dec_u32(b) {
        Ok((n, rest)) => if rest.len() < n {
            Err(CodecError::Truncated)
        } else {
            Ok((rest.take(n as int), rest.skip(n as int)))
        },
        Err(e) => Err(e),
    }
}

pub open spec fn enc_str(s: Seq<char>) -> Seq<u8> {
    enc_bytes(encode_utf8(s))
}

pub open spec fn dec_str(b: Seq<u8>) -> Result<(Seq<char>, Seq<u8>), CodecError> {
    match dec_bytes(b) {
        Ok((raw, rest)) => if valid_utf8(raw) {
            Ok((decode_utf8(raw), rest))
        } else {
            Err(CodecError::InvalidUtf8)
        },
        Err(e) => Err(e),
    }
}

pub open spec fn bytes_fit(b: Seq<u8>) -> bool {
    b.len() <= u32::MAX
}

pub open spec fn str_fits(s: Seq<char>) -> bool {
    encode_utf8(s).len() <= u32::MAX
}

/// The items of a list, one after the other.
pub open spec fn enc_items<T>(xs: Seq<T>, enc: spec_fn(T) -> Seq<u8>) -> Seq<u8>
    decreases xs.len(),
{
    if xs.len() == 0 {
        Seq::empty()
    } else {
        enc_items(xs.drop_last(), enc) + enc(xs.last())
    }
}

pub open spec fn enc_list<T>(xs: Seq<T>, enc: spec_fn(T) -> Seq<u8>) -> Seq<u8> {
    u32_bytes(xs.len() as u32) + enc_items(xs, enc)
}

pub open spec fn dec_items<T>(
    b: Seq<u8>,
    n: nat,
    dec: spec_fn(Seq<u8>) -> Result<(T, Seq<u8>), CodecError>,
) -> Result<(Seq<T>, Seq<u8>), CodecError>
    decreases n,
{
    if n == 0 {
        Ok((Seq::empty(), b))
    } else {
        match dec_items(b, (n - 1) as nat, dec) {
            Ok((xs, rest)) => match dec(rest) {
                Ok((x, rest2)) => Ok((xs.push(x), rest2)),
                Err(e) => Err(e),
            },
            Err(e) => Err(e),
        }
    }
}

pub open spec fn dec_list<T>(b: Seq<u8>, dec: spec_fn(Seq<u8>) -> Result<(T, Seq<u8>), CodecError>) -> Result<
    (Seq<T>, Seq<u8>),
    CodecError,
> {
    match dec_u32(b) {
        Ok((n, rest)) => dec_items(rest, n as nat, dec),
        Err(e) => Err(e),
    }
}

pub open spec fn list_fits<T>(xs: Seq<T>, fits: spec_fn(T) -> bool) -> bool {
    &&& xs.len() <= u32::MAX
    &&& forall|i: int| 0 <= i < xs.len() ==> #[trigger] fits(xs[i])
}

/// A decoder undoes an encoder on the values that fit, whatever follows.
pub open spec fn undoes<T>(
    dec: spec_fn(Seq<u8>) -> Result<(T, Seq<u8>), CodecError>,
    enc: spec_fn(T) -> Seq<u8>,
    fits: spec_fn(T) -> bool,
) -> bool {
    forall|x: T, rest: Seq<u8>| fits(x) ==> #[trigger] dec(enc(x) + rest) == Ok::<(T, Seq<u8>), CodecError>((x, rest))
}

pub proof fn lemma_concat_assoc(a: Seq<u8>, b: Seq<u8>, c: Seq<u8>)
    ensures
        (a + b) + c == a + (b + c),
{
    assert((a + b) + c =~= a + (b + c));
}

pub proof fn lemma_concat_empty(a: Seq<u8>)
    ensures
        a + Seq::<u8>::empty() == a,
{
    assert(a + Seq::<u8>::empty() =~= a);
}

pub proof fn lemma_enc_items_step<T>(xs: Seq<T>, i: int, enc: spec_fn(T) -> Seq<u8>)
    requires
        0 <= i < xs.len(),
    ensures
        enc_items(xs.take(i + 1), enc) == enc_items(xs.take(i), enc) + enc(xs[i]),
{
    assert(xs.take(i + 1).drop_last() =~= xs.take(i));
}

/// The items of a prefix take no more bytes than all the items.
pub proof fn lemma_enc_items_prefix_len<T>(xs: Seq<T>, i: int, enc: spec_fn(T) -> Seq<u8>)
    requires
        0 <= i <= xs.len(),
    ensures
        enc_items(xs.take(i), enc).len() <= enc_items(xs, enc).len(),
    decreases xs.len() - i,
{
    if i < xs.len() {
        lemma_enc_items_step(xs, i, enc);
        lemma_enc_items_prefix_len(xs, i + 1, enc);
    } else {
        assert(xs.take(i) =~= xs);
    }
}

/// Once decoding the items has failed, decoding more of them fails the same way.
pub proof fn lemma_items_err<T>(
    b: Seq<u8>,
    k: nat,
    n: nat,
    dec: spec_fn(Seq<u8>) -> Result<(T, Seq<u8>), CodecError>,
)
    requires
        k <= n,
        dec_items(b, k, dec) is Err,
    ensures
        dec_items(b, n, dec) == dec_items(b, k, dec),
    decreases n,
{
    if n > k {
        lemma_items_err(b, k, (n - 1) as nat, dec);
    }
}

pub proof fn lemma_u32_round_trip(x: u32, rest: Seq<u8>)
    ensures
        dec_u32(u32_bytes(x) + rest) == Ok::<(u32, Seq<u8>), CodecError>((x, rest)),
{
    let b = u32_bytes(x) + rest;
    assert(b.skip(4) =~= rest);
    let xi = x as int;
    assert(u32_from(b[0], b[1], b[2], b[3]) == x) by (nonlinear_arith)
        requires
            b[0] == (x / 0x1000000) as u8,
            b[1] == ((x / 0x10000) % 0x100) as u8,
            b[2] == ((x / 0x100) % 0x100) as u8,
            b[3] == (x % 0x100) as u8,
            0 <= xi < 0x100000000,
            xi == x,
    ;
}

pub proof fn lemma_i32_round_trip(x: i32, rest: Seq<u8>)
    ensures
        dec_i32(enc_i32(x) + rest) == Ok::<(i32, Seq<u8>), CodecError>((x, rest)),
{
    lemma_u32_round_trip(i32_bits(x), rest);
}

pub proof fn lemma_bool_round_trip(x: bool, rest: Seq<u8>)
    ensures
        dec_bool(enc_bool(x) + rest) == Ok::<(bool, Seq<u8>), CodecError>((x, rest)),
{
    assert((enc_bool(x) + rest).skip(1) =~= rest);
}

pub proof fn lemma_bytes_round_trip(x: Seq<u8>, rest: Seq<u8>)
    requires
        bytes_fit(x),
    ensures
        dec_bytes(enc_bytes(x) + rest) == Ok::<(Seq<u8>, Seq<u8>), CodecError>((x, rest)),
{
    lemma_u32_round_trip(x.len() as u32, x + rest);
    assert(enc_bytes(x) + rest =~= u32_bytes(x.len() as u32) + (x + rest));
    assert((x + rest).take(x.len() as int) =~= x);
    assert((x + rest).skip(x.len() as int) =~= rest);
}

pub proof fn lemma_str_round_trip(s: Seq<char>, rest: Seq<u8>)
    requires
        str_fits(s),
    ensures
        dec_str(enc_str(s) + rest) == Ok::<(Seq<char>, Seq<u8>), CodecError>((s, rest)),
{
    broadcast use encode_utf8_valid_utf8, encode_utf8_decode_utf8;

    lemma_bytes_round_trip(encode_utf8(s), rest);
}

pub proof fn lemma_items_round_trip<T>(
    xs: Seq<T>,
    rest: Seq<u8>,
    enc: spec_fn(T) -> Seq<u8>,
    dec: spec_fn(Seq<u8>) -> Result<(T, Seq<u8>), CodecError>,
    fits: spec_fn(T) -> bool,
)
    requires
        undoes(dec, enc, fits),
        forall|i: int| 0 <= i < xs.len() ==> #[trigger] fits(xs[i]),
    ensures
        dec_items(enc_items(xs, enc) + rest, xs.len(), dec) == Ok::<(Seq<T>, Seq<u8>), CodecError>(
            (xs, rest),
        ),
    decreases xs.len(),
{
    if xs.len() > 0 {
        let init = xs.drop_last();
        let last = xs.last();
        assert(enc_items(xs, enc) + rest =~= enc_items(init, enc) + (enc(last) + rest));
        assert forall|i: int| 0 <= i < init.len() implies #[trigger] fits(init[i]) by {
            assert(init[i] == xs[i]);
        }
        lemma_items_round_trip(init, enc(last) + rest, enc, dec, fits);
        assert(fits(xs[xs.len() - 1]));
        assert(dec(enc(last) + rest) == Ok::<(T, Seq<u8>), CodecError>((last, rest)));
        assert(init.push(last) =~= xs);
        assert(((xs.len() - 1) as nat) == init.len());
    } else {
        assert(enc_items(xs, enc) + rest =~= rest);
        assert(xs =~= Seq::<T>::empty());
    }
}

pub proof fn lemma_list_round_trip<T>(
    xs: Seq<T>,
    rest: Seq<u8>,
    enc: spec_fn(T) -> Seq<u8>,
    dec: spec_fn(Seq<u8>) -> Result<(T, Seq<u8>), CodecError>,
    fits: spec_fn(T) -> bool,
)
    requires
        undoes(dec, enc, fits),
        list_fits(xs, fits),
    ensures
        dec_list(enc_list(xs, enc) + rest, dec) == Ok::<(Seq<T>, Seq<u8>), CodecError>((xs, rest)),
{
    lemma_u32_round_trip(xs.len() as u32, enc_items(xs, enc) + rest);
    assert(enc_list(xs, enc) + rest =~= u32_bytes(xs.len() as u32) + (enc_items(xs, enc) + rest));
    lemma_items_round_trip(xs, rest, enc, dec, fits);
}

/// How an executable decoder's result `r`, read from position `pos` of
/// `b`, stands to the decoder `s` of the layout: the same value, and the
/// rest of the input from the position returned; or the same error.
pub open spec fn read_as<T, V>(
    r: Result<(T, usize), CodecError>,
    s: Result<(V, Seq<u8>), CodecError>,
    b: Seq<u8>,
    view: spec_fn(T) -> V,
) -> bool {
    match s {
        Ok((v, rest)) => match r {
            Ok((x, p)) => view(x) == v && p <= b.len() && b.skip(p as int) == rest,
            Err(_) => false,
        },
        Err(e) => r == Err::<(T, usize), CodecError>(e),
    }
}

pub fn write_u32(out: &mut Vec<u8>, x: u32)
    ensures
        final(out)@ == old(out)@ + u32_bytes(x),
{
    out.push((x / 0x1000000) as u8);
    out.push(((x / 0x10000) % 0x100) as u8);
    out.push(((x / 0x100) % 0x100) as u8);
    out.push((x % 0x100) as u8);
    assert(final(out)@ =~= old(out)@ + u32_bytes(x));
}

pub fn write_i32(out: &mut Vec<u8>, x: i32)
    ensures
        final(out)@ == old(out)@ + enc_i32(x),
{
    let bits: u32 = if x >= 0 {
        x as u32
    } else {
        (x as i64 + 0x100000000i64) as u32
    };
    write_u32(out, bits);
}

pub fn write_bool(out: &mut Vec<u8>, x: bool)
    ensures
        final(out)@ == old(out)@ + enc_bool(x),
{
    out.push(if x { 1u8 } else { 0u8 });
    assert(final(out)@ =~= old(out)@ + enc_bool(x));
}

pub fn write_bytes(out: &mut Vec<u8>, b: &[u8]) -> (r: Result<(), CodecError>)
    ensures
        r is Ok <==> bytes_fit(b@),
        r is Err ==> r == Err::<(), CodecError>(CodecError::TooLarge),
        r is Ok ==> final(out)@ == old(out)@ + enc_bytes(b@),
{
    if b.len() > u32::MAX as usize {
        return Err(CodecError::TooLarge);
    }
    write_u32(out, b.len() as u32);
    let ghost start = out@;
    let mut i: usize = 0;
    while i < b.len()
        invariant
            i <= b@.len(),
            out@ == start + b@.take(i as int),
        decreases b@.len() - i,
    {
        out.push(b[i]);
        assert(b@.take(i + 1) =~= b@.take(i as int).push(b@[i as int]));
        i = i + 1;
    }
    assert(b@.take(i as int) =~= b@);
    assert(final(out)@ =~= old(out)@ + enc_bytes(b@));
    Ok(())
}

pub fn write_str(out: &mut Vec<u8>, s: &str) -> (r: Result<(), CodecError>)
    ensures
        r is Ok <==> str_fits(s@),
        r is Err ==> r == Err::<(), CodecError>(CodecError::TooLarge),
        r is Ok ==> final(out)@ == old(out)@ + enc_str(s@),
{
    write_bytes(out, s.as_bytes())
}

pub fn read_u32(b: &[u8], pos: usize) -> (r: Result<(u32, usize), CodecError>)
    requires
        pos <= b@.len(),
    ensures
        read_as(r, dec_u32(b@.skip(pos as int)), b@, |x: u32| x),
{
    if b.len() - pos < 4 {
        return Err(CodecError::Truncated);
    }
    let x: u32 = (b[pos] as u32) * 0x1000000 + (b[pos + 1] as u32) * 0x10000 + (b[pos + 2] as u32)
        * 0x100 + (b[pos + 3] as u32);
    assert(b@.skip(pos as int).skip(4) =~= b@.skip(pos + 4));
    Ok((x, pos + 4))
}

pub fn read_i32(b: &[u8], pos: usize) -> (r: Result<(i32, usize), CodecError>)
    requires
        pos <= b@.len(),
    ensures
        read_as(r, dec_i32(b@.skip(pos as int)), b@, |x: i32| x),
{
    match read_u32(b, pos) {
        Ok((u, p)) => {
            let x: i32 = if u < 0x80000000 {
                u as i32
            } else {
                (u as i64 - 0x100000000i64) as i32
            };
            Ok((x, p))
        },
        Err(e) => Err(e),
    }
}

pub fn read_bool(b: &[u8], pos: usize) -> (r: Result<(bool, usize), CodecError>)
    requires
        pos <= b@.len(),
    ensures
        read_as(r, dec_bool(b@.skip(pos as int)), b@, |x: bool| x),
{
    if pos == b.len() {
        return Err(CodecError::Truncated);
    }
    assert(b@.skip(pos as int).skip(1) =~= b@.skip(pos + 1));
    Ok((b[pos] == 1, pos + 1))
}

pub fn read_bytes(b: &[u8], pos: usize) -> (r: Result<(Vec<u8>, usize), CodecError>)
    requires
        pos <= b@.len(),
    ensures
        read_as(r, dec_bytes(b@.skip(pos as int)), b@, |x: Vec<u8>| x@),
{
    match read_u32(b, pos) {
        Ok((n, p)) => {
            if ((b.len() - p) as u64) < n as u64 {
                return Err(CodecError::Truncated);
            }
            let end = p + n as usize;
            let raw = slice_to_vec(slice_subrange(b, p, end));
            assert(b@.skip(p as int).take(n as int) =~= b@.subrange(p as int, end as int));
            assert(b@.skip(p as int).skip(n as int) =~= b@.skip(end as int));
            Ok((raw, end))
        },
        Err(e) => Err(e),
    }
}

/// Relies on `std::str::from_utf8`: it accepts exactly the valid UTF-8
/// byte strings, and the string it returns has those bytes.
#[verifier::external_body]
pub(crate) fn utf8_str(b: &[u8]) -> (r: Option<&str>)
    ensures
        r is Some <==> valid_utf8(b@),
        r matches Some(s) ==> s.spec_bytes() == b@,
{
    std::str::from_utf8(b).ok()
}

pub fn read_str(b: &[u8], pos: usize) -> (r: Result<(String, usize), CodecError>)
    requires
        pos <= b@.len(),
    ensures
        read_as(r, dec_str(b@.skip(pos as int)), b@, |x: String| x@),
{
    match read_bytes(b, pos) {
        Ok((raw, p)) => match utf8_str(raw.as_slice()) {
            Some(s) => {
                proof {
                    broadcast use encode_utf8_decode_utf8;

                    assert(decode_utf8(encode_utf8(s@)) == s@);
                }
                Ok((s.to_owned(), p))
            },
            None => Err(CodecError::InvalidUtf8),
        },
        Err(e) => Err(e),
    }
}

} // verus!
