//! Decoding what the encoder writes gives the value back.
use vstd::prelude::*;
use vstd::utf8::{encode_utf8, encode_utf8_decode_utf8, encode_utf8_valid_utf8};
use crate::de_spec::{decode_all, parse_value, sign_extend, utf8_field};
use crate::format::{byte_limit, le_bytes, le_value, lemma_byte_limit_values, lemma_le_bytes_len, lemma_le_round_trip};
use crate::ser::{
    encode_bool,
    encode_double,
    encode_int,
    encode_null,
    encode_str,
    encode_uint,
    neg_width,
    uint_width,
};
use crate::value::ValueView;

verus! {

/// A value that is not a container.
pub open spec fn is_scalar(v: ValueView) -> bool {
    !(v is Array) && !(v is Object)
}

/// The canonical encoding of a scalar.
pub open spec fn encode_scalar(v: ValueView) -> Seq<u8> {
    match v {
        ValueView::Null => encode_null(),
        ValueView::Bool(b) => encode_bool(b),
        ValueView::Int(i) => encode_int(i),
        ValueView::UInt(u) => encode_uint(u),
        ValueView::Double(d) => encode_double(d),
        ValueView::Str(s) => encode_str(s),
        _ => seq![],
    }
}

/// The form in which a scalar comes back from a decode: the format has one
/// kind of non-negative integer, which reads back as unsigned.
pub open spec fn canonical(v: ValueView) -> ValueView {
    match v {
        ValueView::Int(i) => if i >= 0 {
            ValueView::UInt(i as u64)
        } else {
            v
        },
        _ => v,
    }
}

/// A string's UTF-8 form is short enough for an 8-byte length field, as that
/// of every string in memory is.
pub open spec fn string_fits(v: ValueView) -> bool {
    v matches ValueView::Str(s) ==> encode_utf8(s).len() < byte_limit(8)
}

proof fn lemma_le_field(v: nat, w: nat, rest: Seq<u8>, tag: u8)
    requires
        v < byte_limit(w),
    ensures
        (seq![tag] + le_bytes(v, w) + rest).subrange(1, 1 + w as int) == le_bytes(v, w),
        le_value(le_bytes(v, w)) == v,
        le_bytes(v, w).len() == w,
{
    lemma_le_bytes_len(v, w);
    lemma_le_round_trip(v, w);
    vstd::arithmetic::div_mod::lemma_small_mod(v, byte_limit(w));
    assert((seq![tag] + le_bytes(v, w) + rest).subrange(1, 1 + w as int) =~= le_bytes(v, w));
}

proof fn lemma_uint_round_trip(u: u64)
    ensures
        parse_value(encode_uint(u)) == Ok::<(ValueView, nat), crate::error::Error>(
            (ValueView::UInt(u), encode_uint(u).len()),
        ),
{
    lemma_byte_limit_values();
    if u >= 10 {
        let w = uint_width(u as nat);
        lemma_le_field(u as nat, w, seq![], (0x27 + w) as u8);
        assert(encode_uint(u) =~= seq![(0x27 + w) as u8] + le_bytes(u as nat, w) + seq![]);
    }
}

proof fn lemma_int_round_trip(i: i64)
    requires
        i < 0,
    ensures
        parse_value(encode_int(i)) == Ok::<(ValueView, nat), crate::error::Error>(
            (ValueView::Int(i), encode_int(i).len()),
        ),
{
    lemma_byte_limit_values();
    if i < -6 {
        let w = neg_width(i as int);
        let u = (i + byte_limit(w)) as nat;
        lemma_le_field(u, w, seq![], (0x1f + w) as u8);
        assert(encode_int(i) =~= seq![(0x1f + w) as u8] + le_bytes(u, w) + seq![]);
        assert(sign_extend(u, w) == i);
    }
}

proof fn lemma_str_round_trip(s: Seq<char>)
    requires
        encode_utf8(s).len() < byte_limit(8),
    ensures
        parse_value(encode_str(s)) == Ok::<(ValueView, nat), crate::error::Error>(
            (ValueView::Str(s), encode_str(s).len()),
        ),
{
    let b = encode_utf8(s);
    encode_utf8_valid_utf8(s);
    encode_utf8_decode_utf8(s);
    let e = encode_str(s);
    if b.len() <= 126 {
        assert(e.subrange(1, 1 + b.len() as int) =~= b);
        assert(utf8_field(e, 1, b.len()) == Ok::<(Seq<char>, nat), crate::error::Error>(
            (s, 1 + b.len()),
        ));
    } else {
        lemma_byte_limit_values();
        lemma_le_field(b.len(), 8, b, 0xbf);
        assert(e.subrange(9, 9 + b.len() as int) =~= b);
        assert(utf8_field(e, 9, b.len()) == Ok::<(Seq<char>, nat), crate::error::Error>(
            (s, 9 + b.len()),
        ));
    }
}

/// Decoding the canonical encoding of a scalar gives the scalar back, in
/// the form the decoder reports it; and that form encodes to the same bytes,
/// so that encoding what was decoded from canonical bytes gives those bytes.
pub proof fn lemma_scalar_round_trip(v: ValueView)
    requires
        is_scalar(v),
        string_fits(v),
    ensures
        parse_value(encode_scalar(v)) == Ok::<(ValueView, nat), crate::error::Error>(
            (canonical(v), encode_scalar(v).len()),
        ),
        decode_all(encode_scalar(v)) == Ok::<ValueView, crate::error::Error>(canonical(v)),
        encode_scalar(canonical(v)) == encode_scalar(v),
{
    lemma_byte_limit_values();
    match v {
        ValueView::Null => {},
        ValueView::Bool(b) => {},
        ValueView::Int(i) => {
            if i >= 0 {
                lemma_uint_round_trip(i as u64);
            } else {
                lemma_int_round_trip(i);
            }
        },
        ValueView::UInt(u) => {
            lemma_uint_round_trip(u);
        },
        ValueView::Double(d) => {
            lemma_le_field(d as nat, 8, seq![], 0x1b);
            assert(encode_double(d) =~= seq![0x1bu8] + le_bytes(d as nat, 8) + seq![]);
        },
        ValueView::Str(s) => {
            lemma_str_round_trip(s);
        },
        _ => {},
    }
}

} // verus!
