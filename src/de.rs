//! The decoder: a cursor over an input slice, and the functions that read
//! each kind of value from the front of a slice.
use vstd::prelude::*;
use vstd::utf8::{decode_utf8, valid_utf8};
use crate::de_spec::{
    decode_all,
    indexed_layout,
    parse_bool,
    parse_compact,
    parse_contents,
    parse_double,
    parse_entries,
    parse_equal_array,
    parse_indexed,
    parse_items,
    parse_null,
    parse_signed,
    parse_string,
    parse_unsigned,
    parse_value,
    sign_extend,
    utf8_field,
    width_of,
    zero_run,
};
use crate::error::Error;
use crate::format::{byte_limit, le_value, lemma_byte_limit_values, lemma_le_value_bound, read_le};
use crate::value::{entry_views, lemma_array_view, lemma_object_view, views, Value, ValueView};
use crate::varint::{
    lemma_read_varint_len,
    read_forward_varint,
    read_reverse_varint,
    reverse_varint,
    VARINT_MAX_BYTES,
};

verus! {

/// A read that gives a value of type `T` agrees with the spec read `sr`:
/// both succeed with the same value and length, or both fail alike.
pub open spec fn same_read<T>(r: Result<(T, usize), Error>, sr: Result<(T, nat), Error>) -> bool {
    match (r, sr) {
        (Ok((v, k)), Ok((sv, sk))) => v == sv && k == sk,
        (Err(e), Err(se)) => e == se,
        _ => false,
    }
}

pub open spec fn same_str_read(r: Result<(String, usize), Error>, sr: Result<(Seq<char>, nat), Error>) -> bool {
    match (r, sr) {
        (Ok((v, k)), Ok((sv, sk))) => v@ == sv && k == sk,
        (Err(e), Err(se)) => e == se,
        _ => false,
    }
}

pub open spec fn same_value_read(r: Result<(Value, usize), Error>, sr: Result<(ValueView, nat), Error>) -> bool {
    match (r, sr) {
        (Ok((v, k)), Ok((sv, sk))) => v@ == sv && k == sk,
        (Err(e), Err(se)) => e == se,
        _ => false,
    }
}

/// The items read so far, placed before what the rest of a read gives.
pub open spec fn prepend<T>(done: Seq<T>, r: Result<Seq<T>, Error>) -> Result<Seq<T>, Error> {
    match r {
        Ok(rest) => Ok(done + rest),
        Err(e) => Err(e),
    }
}

/// Relies on std::str::from_utf8: it accepts exactly the valid UTF-8 byte
/// strings, and the string it gives holds the characters they encode.
#[verifier::external_body]
fn utf8_to_string(b: &[u8]) -> (r: Option<String>)
    ensures
        r is Some <==> valid_utf8(b@),
        r matches Some(s) ==> s@ == decode_utf8(b@),
{
    match std::str::from_utf8(b) {
        Ok(s) => Some(s.to_owned()),
        Err(_) => None,
    }
}

/// Reads null from the front of `s`: the number of bytes it took.
pub fn decode_null(s: &[u8]) -> (r: Result<usize, Error>)
    ensures
        match (r, parse_null(s@)) {
            (Ok(k), Ok(sk)) => k == sk,
            (Err(e), Err(se)) => e == se,
            _ => false,
        },
{
    if s.len() == 0 {
        Err(Error::Eof)
    } else if s[0] == 0x18 {
        Ok(1)
    } else {
        Err(Error::ExpectedNull)
    }
}

/// Reads a boolean from the front of `s`.
pub fn decode_bool(s: &[u8]) -> (r: Result<(bool, usize), Error>)
    ensures
        same_read(r, parse_bool(s@)),
{
    if s.len() == 0 {
        Err(Error::Eof)
    } else if s[0] == 0x19 {
        Ok((false, 1))
    } else if s[0] == 0x1a {
        Ok((true, 1))
    } else {
        Err(Error::ExpectedBoolean)
    }
}

/// Reads a double from the front of `s`, as the bits of its binary64 form.
pub fn decode_double(s: &[u8]) -> (r: Result<(u64, usize), Error>)
    ensures
        same_read(r, parse_double(s@)),
{
    if s.len() == 0 {
        Err(Error::Eof)
    } else if s[0] != 0x1b {
        Err(Error::ExpectedDouble)
    } else if s.len() < 9 {
        Err(Error::Eof)
    } else {
        Ok((read_le(s, 1, 8), 9))
    }
}

/// Reads an unsigned integer from the front of `s`.
pub fn decode_unsigned(s: &[u8]) -> (r: Result<(u64, usize), Error>)
    ensures
        same_read(r, parse_unsigned(s@)),
{
    if s.len() == 0 {
        return Err(Error::Eof);
    }
    let t = s[0];
    if 0x28 <= t && t <= 0x2f {
        let n = (t - 0x27) as usize;
        if s.len() < 1 + n {
            Err(Error::Eof)
        } else {
            Ok((read_le(s, 1, n), 1 + n))
        }
    } else if 0x30 <= t && t <= 0x39 {
        Ok(((t - 0x30) as u64, 1))
    } else {
        Err(Error::ExpectedInteger)
    }
}

/// The two's complement number whose `n` bytes read as `u` unsigned.
fn sign_extend_field(u: u64, n: usize) -> (r: i64)
    requires
        1 <= n <= 8,
        u < byte_limit(n as nat),
    ensures
        r == sign_extend(u as nat, n as nat),
{
    proof {
        lemma_byte_limit_values();
    }
    let max: u64 = if n == 1 {
        0xff
    } else if n == 2 {
        0xffff
    } else if n == 3 {
        0xff_ffff
    } else if n == 4 {
        0xffff_ffff
    } else if n == 5 {
        0xff_ffff_ffff
    } else if n == 6 {
        0xffff_ffff_ffff
    } else if n == 7 {
        0xff_ffff_ffff_ffff
    } else {
        0xffff_ffff_ffff_ffff
    };
    assert(max + 1 == byte_limit(n as nat));
    if u > max / 2 {
        -((max - u) as i64) - 1
    } else {
        u as i64
    }
}

/// Reads a signed integer from the front of `s`; an unsigned one is taken
/// when it fits in `i64`.
pub fn decode_signed(s: &[u8]) -> (r: Result<(i64, usize), Error>)
    ensures
        same_read(r, parse_signed(s@)),
{
    if s.len() == 0 {
        return Err(Error::Eof);
    }
    let t = s[0];
    if 0x3a <= t && t <= 0x3f {
        Ok((t as i64 - 0x40, 1))
    } else if 0x20 <= t && t <= 0x27 {
        let n = (t - 0x1f) as usize;
        if s.len() < 1 + n {
            Err(Error::Eof)
        } else {
            let u = read_le(s, 1, n);
            proof {
                lemma_le_value_bound(s@.subrange(1, 1 + n as int));
            }
            Ok((sign_extend_field(u, n), 1 + n))
        }
    } else {
        match decode_unsigned(s) {
            Ok((u, k)) => if u > i64::MAX as u64 {
                Err(Error::NumberTooLarge)
            } else {
                Ok((u as i64, k))
            },
            Err(e) => Err(e),
        }
    }
}

/// Reads `n` bytes of UTF-8 that start at `start`.
fn decode_utf8_field(s: &[u8], start: usize, n: usize) -> (r: Result<(String, usize), Error>)
    requires
        start <= s@.len(),
    ensures
        same_str_read(r, utf8_field(s@, start as nat, n as nat)),
{
    if s.len() - start < n {
        Err(Error::Eof)
    } else {
        match utf8_to_string(&s[start..start + n]) {
            Some(text) => Ok((text, start + n)),
            None => Err(Error::InvalidUtf8),
        }
    }
}

/// Reads a string from the front of `s`.
pub fn decode_string(s: &[u8]) -> (r: Result<(String, usize), Error>)
    ensures
        same_str_read(r, parse_string(s@)),
{
    if s.len() == 0 {
        return Err(Error::Eof);
    }
    let t = s[0];
    if 0x40 <= t && t <= 0xbe {
        decode_utf8_field(s, 1, (t - 0x40) as usize)
    } else if t == 0xbf {
        if s.len() < 9 {
            Err(Error::Eof)
        } else {
            let n = read_le(s, 1, 8);
            if n > (s.len() - 9) as u64 {
                Err(Error::Eof)
            } else {
                decode_utf8_field(s, 9, n as usize)
            }
        }
    } else {
        Err(Error::ExpectedString)
    }
}

/// A string read takes at least its tag and no more bytes than there are.
pub proof fn lemma_parse_string_consumed(s: Seq<u8>)
    ensures
        parse_string(s) matches Ok((_, k)) ==> 1 <= k <= s.len(),
{
}

/// A value read takes at least its tag and no more bytes than there are.
pub proof fn lemma_parse_value_consumed(s: Seq<u8>)
    ensures
        parse_value(s) matches Ok((_, k)) ==> 1 <= k <= s.len(),
{
    if s.len() > 0 {
        let t = s[0];
        if 0x13 <= t <= 0x14 {
            lemma_read_varint_len(s.subrange(1, s.len() as int), VARINT_MAX_BYTES as nat);
        }
    }
}

/// Counts the zero bytes of padding at the front of `b`.
fn skip_zeros(b: &[u8]) -> (p: usize)
    ensures
        p == zero_run(b@),
        p <= b@.len(),
{
    let n = b.len();
    let mut i: usize = 0;
    assert(b@.subrange(0, n as int) =~= b@);
    while i < n && b[i] == 0
        invariant
            i <= n,
            n == b@.len(),
            zero_run(b@) == i + zero_run(b@.subrange(i as int, n as int)),
        decreases n - i,
    {
        assert(b@.subrange(i as int, n as int).drop_first() =~= b@.subrange(i + 1, n as int));
        i = i + 1;
    }
    assert(b@.subrange(0, n as int) =~= b@);
    i
}

/// Reads the frame of an indexed container with `w`-byte fields.
fn read_indexed_layout(s: &[u8], w: usize) -> (r: Result<(usize, u64, usize, usize), Error>)
    requires
        w == 1 || w == 2 || w == 4 || w == 8,
    ensures
        match (r, indexed_layout(s@, w as nat)) {
            (Ok((len, n, a, b)), Ok((sl, sn, sa, sb))) => len == sl && n == sn && a == sa && b == sb
                && 1 <= a <= b <= len <= s@.len(),
            (Err(e), Err(se)) => e == se,
            _ => false,
        },
{
    if s.len() < 1 + w {
        return Err(Error::Eof);
    }
    let len64 = read_le(s, 1, w);
    if len64 > s.len() as u64 {
        return Err(Error::Eof);
    }
    let len = len64 as usize;
    if w == 8 {
        if len < 17 {
            return Err(Error::Malformed);
        }
        let n = read_le(s, len - 8, 8);
        if 17 + 8 * (n as u128) > len as u128 {
            return Err(Error::Malformed);
        }
        Ok((len, n, 9, len - 8 - 8 * (n as usize)))
    } else {
        if len < 1 + 2 * w {
            return Err(Error::Malformed);
        }
        let n = read_le(s, 1 + w, w);
        assert((n as u128) * (w as u128) <= 8 * (n as u128)) by (nonlinear_arith)
            requires
                w <= 8,
        ;
        if (1 + 2 * w) as u128 + (n as u128) * (w as u128) > len as u128 {
            return Err(Error::Malformed);
        }
        assert(n <= len) by (nonlinear_arith)
            requires
                (n as int) * (w as int) <= len,
                w >= 1,
        ;
        assert((n as usize) * w == (n as u128) * (w as u128));
        Ok((len, n, 1 + 2 * w, len - (n as usize) * w))
    }
}

/// Reads `n` values one after another from the front of `r`.
fn decode_items(r: &[u8], n: u64) -> (res: Result<Vec<Value>, Error>)
    ensures
        match (res, parse_items(r@, n as nat)) {
            (Ok(vs), Ok(svs)) => views(vs@) == svs,
            (Err(e), Err(se)) => e == se,
            _ => false,
        },
    decreases r@.len(), 2nat,
{
    let len = r.len();
    let mut items: Vec<Value> = Vec::new();
    let mut pos: usize = 0;
    let mut i: u64 = 0;
    proof {
        assert(r@.subrange(0, len as int) =~= r@);
        assert(views(items@) =~= Seq::<ValueView>::empty());
        match parse_items(r@, n as nat) {
            Ok(svs) => assert(Seq::<ValueView>::empty() + svs =~= svs),
            Err(e) => {},
        }
    }
    while i < n
        invariant
            pos <= len,
            len == r@.len(),
            i <= n,
            parse_items(r@, n as nat) == prepend(
                views(items@),
                parse_items(r@.subrange(pos as int, len as int), (n - i) as nat),
            ),
        decreases n - i,
    {
        let rest = &r[pos..len];
        match decode_value(rest) {
            Err(e) => {
                return Err(e);
            },
            Ok((v, k)) => {
                proof {
                    lemma_parse_value_consumed(rest@);
                    let tail = rest@.subrange(k as int, rest@.len() as int);
                    assert(tail =~= r@.subrange(pos + k, len as int));
                    let done = views(items@);
                    assert(views(items@.push(v)) =~= done.push(v@));
                    match parse_items(tail, (n - i - 1) as nat) {
                        Ok(more) => assert(done + (seq![v@] + more) =~= done.push(v@) + more),
                        Err(e) => {},
                    }
                }
                items.push(v);
                pos = pos + k;
                i = i + 1;
            },
        }
    }
    proof {
        assert(views(items@) + Seq::<ValueView>::empty() =~= views(items@));
    }
    Ok(items)
}

/// Reads `n` object entries, each a string key and a value, from the front
/// of `r`.
#[verifier::rlimit(40)]
fn decode_entries(r: &[u8], n: u64) -> (res: Result<Vec<(String, Value)>, Error>)
    ensures
        match (res, parse_entries(r@, n as nat)) {
            (Ok(es), Ok(ses)) => entry_views(es@) == ses,
            (Err(e), Err(se)) => e == se,
            _ => false,
        },
    decreases r@.len(), 2nat,
{
    let len = r.len();
    let mut entries: Vec<(String, Value)> = Vec::new();
    let mut pos: usize = 0;
    let mut i: u64 = 0;
    proof {
        assert(r@.subrange(0, len as int) =~= r@);
        assert(entry_views(entries@) =~= Seq::<(Seq<char>, ValueView)>::empty());
        match parse_entries(r@, n as nat) {
            Ok(ses) => assert(Seq::<(Seq<char>, ValueView)>::empty() + ses =~= ses),
            Err(e) => {},
        }
    }
    while i < n
        invariant
            pos <= len,
            len == r@.len(),
            i <= n,
            parse_entries(r@, n as nat) == prepend(
                entry_views(entries@),
                parse_entries(r@.subrange(pos as int, len as int), (n - i) as nat),
            ),
        decreases n - i,
    {
        let rest = &r[pos..len];
        let (key, k) = match decode_string(rest) {
            Err(e) => {
                return Err(e);
            },
            Ok(found) => found,
        };
        proof {
            lemma_parse_string_consumed(rest@);
        }
        let after_key = &rest[k..rest.len()];
        match decode_value(after_key) {
            Err(e) => {
                return Err(e);
            },
            Ok((v, k2)) => {
                proof {
                    lemma_parse_value_consumed(after_key@);
                    let tail = after_key@.subrange(k2 as int, after_key@.len() as int);
                    assert(tail =~= r@.subrange(pos + k + k2, len as int));
                    let done = entry_views(entries@);
                    assert(entry_views(entries@.push((key, v))) =~= done.push((key@, v@)));
                    match parse_entries(tail, (n - i - 1) as nat) {
                        Ok(more) => assert(done + (seq![(key@, v@)] + more) =~= done.push(
                            (key@, v@),
                        ) + more),
                        Err(e) => {},
                    }
                }
                entries.push((key, v));
                pos = pos + k + k2;
                i = i + 1;
            },
        }
    }
    proof {
        assert(entry_views(entries@) + Seq::<(Seq<char>, ValueView)>::empty() =~= entry_views(
            entries@,
        ));
    }
    Ok(entries)
}

/// Reads the `n` items, or entries when `object` holds, of a region.
fn decode_contents(r: &[u8], n: u64, object: bool) -> (res: Result<Value, Error>)
    ensures
        match (res, parse_contents(r@, n as nat, object)) {
            (Ok(v), Ok(sv)) => v@ == sv,
            (Err(e), Err(se)) => e == se,
            _ => false,
        },
    decreases r@.len(), 3nat,
{
    if object {
        match decode_entries(r, n) {
            Ok(es) => {
                let v = Value::Object(es);
                assert(v@ == ValueView::Object(entry_views(es@))) by {
                    if let ValueView::Object(x) = v@ {
                        assert(x =~= entry_views(es@));
                    }
                }
                Ok(v)
            },
            Err(e) => Err(e),
        }
    } else {
        match decode_items(r, n) {
            Ok(vs) => {
                let v = Value::Array(vs);
                assert(v@ == ValueView::Array(views(vs@))) by {
                    if let ValueView::Array(x) = v@ {
                        assert(x =~= views(vs@));
                    }
                }
                Ok(v)
            },
            Err(e) => Err(e),
        }
    }
}

/// Reads an array whose elements all have one length, and which has no index.
fn decode_equal_array(s: &[u8], w: usize) -> (r: Result<(Value, usize), Error>)
    requires
        w == 1 || w == 2 || w == 4 || w == 8,
    ensures
        same_value_read(r, parse_equal_array(s@, w as nat)),
    decreases s@.len(), 0nat,
{
    if s.len() < 1 + w {
        return Err(Error::Eof);
    }
    let len64 = read_le(s, 1, w);
    if len64 > s.len() as u64 {
        return Err(Error::Eof);
    }
    let len = len64 as usize;
    if len < 1 + w {
        return Err(Error::Malformed);
    }
    let body = &s[1 + w..len];
    let p = skip_zeros(body);
    if p >= body.len() {
        return Err(Error::Malformed);
    }
    let r = &body[p..body.len()];
    let (first, k) = match decode_value(r) {
        Err(e) => {
            return Err(e);
        },
        Ok(found) => found,
    };
    proof {
        lemma_parse_value_consumed(r@);
    }
    if r.len() % k != 0 {
        return Err(Error::Malformed);
    }
    let count = (r.len() / k) as u64;
    proof {
        let rl = r@.len() as int;
        assert(rl / (k as int) >= 1) by (nonlinear_arith)
            requires
                k <= rl,
                k >= 1,
        ;
    }
    match decode_items(&r[k..r.len()], count - 1) {
        Err(e) => Err(e),
        Ok(more) => {
            let ghost more_views = views(more@);
            let mut items: Vec<Value> = Vec::new();
            items.push(first);
            let mut rest = more;
            items.append(&mut rest);
            let v = Value::Array(items);
            proof {
                assert(views(items@) =~= seq![first@] + more_views);
                if let ValueView::Array(x) = v@ {
                    assert(x =~= views(items@));
                }
            }
            Ok((v, len))
        },
    }
}

/// Reads an indexed array or object with `w`-byte fields.
fn decode_indexed(s: &[u8], w: usize, object: bool) -> (r: Result<(Value, usize), Error>)
    requires
        w == 1 || w == 2 || w == 4 || w == 8,
    ensures
        same_value_read(r, parse_indexed(s@, w as nat, object)),
    decreases s@.len(), 0nat,
{
    let (len, n, a, b) = match read_indexed_layout(s, w) {
        Err(e) => {
            return Err(e);
        },
        Ok(found) => found,
    };
    let body = &s[a..b];
    let p = skip_zeros(body);
    match decode_contents(&body[p..body.len()], n, object) {
        Ok(v) => Ok((v, len)),
        Err(e) => Err(e),
    }
}

/// Reads a compact array or object.
fn decode_compact(s: &[u8], object: bool) -> (r: Result<(Value, usize), Error>)
    ensures
        same_value_read(r, parse_compact(s@, object)),
    decreases s@.len(), 0nat,
{
    if s.len() == 0 {
        return Err(Error::Eof);
    }
    let (len64, k) = match read_forward_varint(s, 1, s.len()) {
        Err(e) => {
            return Err(e);
        },
        Ok(found) => found,
    };
    if len64 > s.len() as u64 {
        return Err(Error::Eof);
    }
    let len = len64 as usize;
    if len < 2 || len - 2 < k {
        return Err(Error::Malformed);
    }
    let (n, m) = match read_reverse_varint(s, 1 + k, len) {
        Err(e) => {
            return Err(e);
        },
        Ok(found) => found,
    };
    proof {
        lemma_read_varint_len(s@.subrange(1 + k as int, len as int).reverse(), VARINT_MAX_BYTES as nat);
        assert(s@.subrange(1 + k as int, len as int).subrange(0, len - (1 + k) - m) =~= s@.subrange(
            1 + k as int,
            len - m,
        ));
    }
    match decode_contents(&s[1 + k..len - m], n, object) {
        Ok(v) => Ok((v, len)),
        Err(e) => Err(e),
    }
}

/// Reads the value at the front of `s`, whatever its kind: the value and
/// the number of bytes it took.
pub fn decode_value(s: &[u8]) -> (r: Result<(Value, usize), Error>)
    ensures
        same_value_read(r, parse_value(s@)),
    decreases s@.len(), 1nat,
{
    if s.len() == 0 {
        return Err(Error::Eof);
    }
    let t = s[0];
    if t == 0x01 {
        let v = Value::Array(Vec::new());
        assert(v@ == ValueView::Array(seq![])) by {
            if let ValueView::Array(x) = v@ {
                assert(x =~= seq![]);
            }
        }
        Ok((v, 1))
    } else if 0x02 <= t && t <= 0x05 {
        decode_equal_array(s, field_width(t - 0x02))
    } else if 0x06 <= t && t <= 0x09 {
        decode_indexed(s, field_width(t - 0x06), false)
    } else if t == 0x0a {
        let v = Value::Object(Vec::new());
        assert(v@ == ValueView::Object(seq![])) by {
            if let ValueView::Object(x) = v@ {
                assert(x =~= seq![]);
            }
        }
        Ok((v, 1))
    } else if 0x0b <= t && t <= 0x12 {
        decode_indexed(s, field_width((t - 0x0b) % 4), true)
    } else if t == 0x13 {
        decode_compact(s, false)
    } else if t == 0x14 {
        decode_compact(s, true)
    } else if t == 0x18 {
        Ok((Value::Null, 1))
    } else if t == 0x19 || t == 0x1a {
        match decode_bool(s) {
            Ok((b, k)) => Ok((Value::Bool(b), k)),
            Err(e) => Err(e),
        }
    } else if t == 0x1b {
        match decode_double(s) {
            Ok((d, k)) => Ok((Value::Double(d), k)),
            Err(e) => Err(e),
        }
    } else if (0x20 <= t && t <= 0x27) || (0x3a <= t && t <= 0x3f) {
        match decode_signed(s) {
            Ok((i, k)) => Ok((Value::Int(i), k)),
            Err(e) => Err(e),
        }
    } else if 0x28 <= t && t <= 0x39 {
        match decode_unsigned(s) {
            Ok((u, k)) => Ok((Value::UInt(u), k)),
            Err(e) => Err(e),
        }
    } else if 0x40 <= t && t <= 0xbf {
        match decode_string(s) {
            Ok((text, k)) => Ok((Value::String(text), k)),
            Err(e) => Err(e),
        }
    } else {
        Err(Error::Unimplemented(t))
    }
}

/// The field width that the low two bits of a container tag select.
fn field_width(code: u8) -> (w: usize)
    requires
        code < 4,
    ensures
        w == width_of(code as int),
        w == 1 || w == 2 || w == 4 || w == 8,
{
    if code == 0 {
        1
    } else if code == 1 {
        2
    } else if code == 2 {
        4
    } else {
        8
    }
}

/// `r` is what the spec read `sr` of `old` gives, and `new` is what is left
/// after it; a read that fails leaves the cursor where it was.
pub open spec fn took<T>(old: Seq<u8>, new: Seq<u8>, r: Result<T, Error>, sr: Result<(T, nat), Error>) -> bool {
    match (r, sr) {
        (Ok(v), Ok((sv, k))) => v == sv && k <= old.len() && new == old.subrange(
            k as int,
            old.len() as int,
        ),
        (Err(e), Err(se)) => e == se && new == old,
        _ => false,
    }
}

/// An unsigned read, narrowed to a type whose largest value is `max`.
pub open spec fn narrow_unsigned(sr: Result<(u64, nat), Error>, max: u64) -> Result<(u64, nat), Error> {
    match sr {
        Ok((v, k)) => if v > max {
            Err(Error::NumberTooLarge)
        } else {
            Ok((v, k))
        },
        Err(e) => Err(e),
    }
}

/// A signed read, narrowed to a type that holds `min..=max`.
pub open spec fn narrow_signed(sr: Result<(i64, nat), Error>, min: i64, max: i64) -> Result<
    (i64, nat),
    Error,
> {
    match sr {
        Ok((v, k)) => if v < min || v > max {
            Err(Error::NumberTooLarge)
        } else {
            Ok((v, k))
        },
        Err(e) => Err(e),
    }
}

/// The type byte starts an array.
pub open spec fn is_array_tag(t: u8) -> bool {
    (0x01 <= t <= 0x09) || t == 0x13
}

/// The type byte starts an object.
pub open spec fn is_object_tag(t: u8) -> bool {
    (0x0a <= t <= 0x12) || t == 0x14
}

proof fn lemma_contents_kind(r: Seq<u8>, n: nat, object: bool)
    ensures
        parse_contents(r, n, object) matches Ok(v) ==> if object {
            v is Object
        } else {
            v is Array
        },
{
}

/// A read that starts at an array tag gives an array, and one that starts at
/// an object tag gives an object.
proof fn lemma_container_kind(s: Seq<u8>)
    requires
        s.len() > 0,
    ensures
        is_array_tag(s[0]) ==> (parse_value(s) matches Ok((v, _)) ==> v is Array),
        is_object_tag(s[0]) ==> (parse_value(s) matches Ok((v, _)) ==> v is Object),
{
    let t = s[0];
    if 0x06 <= t <= 0x09 || 0x0b <= t <= 0x12 {
        let w = if t <= 0x09 {
            width_of(t - 0x06)
        } else {
            width_of((t - 0x0b) % 4)
        };
        if let Ok((len, n, a, b)) = indexed_layout(s, w) {
            let body = s.subrange(a as int, b as int);
            lemma_contents_kind(
                body.subrange(zero_run(body) as int, body.len() as int),
                n,
                t > 0x09,
            );
        }
    } else if t == 0x13 || t == 0x14 {
        if let Ok((len, k)) = crate::varint::forward_varint(s.subrange(1, s.len() as int)) {
            let tail = s.subrange(1 + k as int, len as int);
            if let Ok((n, m)) = reverse_varint(tail) {
                lemma_contents_kind(tail.subrange(0, tail.len() - m), n, t == 0x14);
            }
        }
    }
}

/// A cursor over an input: the bytes not yet read. It only moves forward.
pub struct Deserializer<'de> {
    input: &'de [u8],
}

impl<'de> Deserializer<'de> {
    /// The bytes not yet read.
    pub closed spec fn view(&self) -> Seq<u8> {
        self.input@
    }

    /// Starts reading at the front of `input`.
    pub fn from_bytes(input: &'de [u8]) -> (d: Self)
        ensures
            d@ == input@,
    {
        Deserializer { input }
    }

    /// The bytes not yet read.
    pub fn remaining(&self) -> (r: &'de [u8])
        ensures
            r@ == self@,
    {
        self.input
    }

    /// The next byte, left unread.
    pub fn peek_byte(&self) -> (r: Result<u8, Error>)
        ensures
            self@.len() == 0 ==> r == Err::<u8, Error>(Error::Eof),
            self@.len() > 0 ==> r == Ok::<u8, Error>(self@[0]),
    {
        if self.input.len() == 0 {
            Err(Error::Eof)
        } else {
            Ok(self.input[0])
        }
    }

    fn consume_bytes(&mut self, n: usize)
        requires
            n <= old(self)@.len(),
        ensures
            final(self)@ == old(self)@.subrange(n as int, old(self)@.len() as int),
    {
        let input = self.input;
        self.input = &input[n..input.len()];
    }

    /// Reads one byte.
    pub fn next_byte(&mut self) -> (r: Result<u8, Error>)
        ensures
            old(self)@.len() == 0 ==> r == Err::<u8, Error>(Error::Eof),
            old(self)@.len() > 0 ==> r == Ok::<u8, Error>(old(self)@[0]) && final(self)@
                == old(self)@.drop_first(),
    {
        let b = self.peek_byte();
        if b.is_ok() {
            self.consume_bytes(1);
            assert(self@ =~= old(self)@.drop_first());
        }
        b
    }

    /// Skips the zero bytes that may pad a container's header.
    pub fn consume_padding(&mut self)
        ensures
            final(self)@ == old(self)@.subrange(zero_run(old(self)@) as int, old(self)@.len() as int),
    {
        let p = skip_zeros(self.input);
        self.consume_bytes(p);
    }

    /// Reads a little-endian unsigned field of `w` bytes.
    pub fn consume_uint(&mut self, w: usize) -> (r: Result<u64, Error>)
        requires
            w <= 8,
        ensures
            took(
                old(self)@,
                final(self)@,
                r,
                if old(self)@.len() < w {
                    Err(Error::Eof)
                } else {
                    Ok((le_value(old(self)@.subrange(0, w as int)) as u64, w as nat))
                },
            ),
    {
        if self.input.len() < w {
            Err(Error::Eof)
        } else {
            let v = read_le(self.input, 0, w);
            self.consume_bytes(w);
            Ok(v)
        }
    }

    /// Reads a boolean.
    pub fn parse_bool(&mut self) -> (r: Result<bool, Error>)
        ensures
            took(old(self)@, final(self)@, r, parse_bool(old(self)@)),
    {
        match decode_bool(self.input) {
            Ok((b, k)) => {
                self.consume_bytes(k);
                Ok(b)
            },
            Err(e) => Err(e),
        }
    }

    /// Reads a double, as the bits of its binary64 form.
    pub fn parse_double(&mut self) -> (r: Result<u64, Error>)
        ensures
            took(old(self)@, final(self)@, r, parse_double(old(self)@)),
    {
        match decode_double(self.input) {
            Ok((d, k)) => {
                self.consume_bytes(k);
                Ok(d)
            },
            Err(e) => Err(e),
        }
    }

    /// Reads an unsigned integer.
    pub fn parse_unsigned(&mut self) -> (r: Result<u64, Error>)
        ensures
            took(old(self)@, final(self)@, r, parse_unsigned(old(self)@)),
    {
        match decode_unsigned(self.input) {
            Ok((u, k)) => {
                self.consume_bytes(k);
                Ok(u)
            },
            Err(e) => Err(e),
        }
    }

    /// Reads a signed integer; an unsigned one is taken when it fits in `i64`.
    pub fn parse_signed(&mut self) -> (r: Result<i64, Error>)
        ensures
            took(old(self)@, final(self)@, r, parse_signed(old(self)@)),
    {
        match decode_signed(self.input) {
            Ok((i, k)) => {
                self.consume_bytes(k);
                Ok(i)
            },
            Err(e) => Err(e),
        }
    }

    /// Reads a string.
    pub fn parse_string(&mut self) -> (r: Result<String, Error>)
        ensures
            match (r, parse_string(old(self)@)) {
                (Ok(v), Ok((sv, k))) => v@ == sv && final(self)@ == old(self)@.subrange(
                    k as int,
                    old(self)@.len() as int,
                ),
                (Err(e), Err(se)) => e == se && final(self)@ == old(self)@,
                _ => false,
            },
    {
        match decode_string(self.input) {
            Ok((text, k)) => {
                self.consume_bytes(k);
                Ok(text)
            },
            Err(e) => Err(e),
        }
    }

    /// Reads null.
    pub fn deserialize_unit(&mut self) -> (r: Result<(), Error>)
        ensures
            match (r, parse_null(old(self)@)) {
                (Ok(_), Ok(k)) => final(self)@ == old(self)@.subrange(
                    k as int,
                    old(self)@.len() as int,
                ),
                (Err(e), Err(se)) => e == se && final(self)@ == old(self)@,
                _ => false,
            },
    {
        match decode_null(self.input) {
            Ok(k) => {
                self.consume_bytes(k);
                Ok(())
            },
            Err(e) => Err(e),
        }
    }

    /// Reads the next value, whatever its kind.
    pub fn deserialize_any(&mut self) -> (r: Result<Value, Error>)
        ensures
            match (r, parse_value(old(self)@)) {
                (Ok(v), Ok((sv, k))) => v@ == sv && final(self)@ == old(self)@.subrange(
                    k as int,
                    old(self)@.len() as int,
                ),
                (Err(e), Err(se)) => e == se && final(self)@ == old(self)@,
                _ => false,
            },
    {
        match decode_value(self.input) {
            Ok((v, k)) => {
                proof {
                    lemma_parse_value_consumed(self@);
                }
                self.consume_bytes(k);
                Ok(v)
            },
            Err(e) => Err(e),
        }
    }

    /// Reads an unsigned integer that fits in `u8`.
    pub fn deserialize_u8(&mut self) -> (r: Result<u8, Error>)
        ensures
            took(
                old(self)@,
                final(self)@,
                match r {
                    Ok(x) => Ok(x as u64),
                    Err(e) => Err(e),
                },
                narrow_unsigned(parse_unsigned(old(self)@), u8::MAX as u64),
            ),
    {
        let (v, k) = match decode_unsigned(self.input) {
            Ok(found) => found,
            Err(e) => {
                return Err(e);
            },
        };
        if v > u8::MAX as u64 {
            return Err(Error::NumberTooLarge);
        }
        self.consume_bytes(k);
        Ok(v as u8)
    }

    /// Reads an unsigned integer that fits in `u16`.
    pub fn deserialize_u16(&mut self) -> (r: Result<u16, Error>)
        ensures
            took(
                old(self)@,
                final(self)@,
                match r {
                    Ok(x) => Ok(x as u64),
                    Err(e) => Err(e),
                },
                narrow_unsigned(parse_unsigned(old(self)@), u16::MAX as u64),
            ),
    {
        let (v, k) = match decode_unsigned(self.input) {
            Ok(found) => found,
            Err(e) => {
                return Err(e);
            },
        };
        if v > u16::MAX as u64 {
            return Err(Error::NumberTooLarge);
        }
        self.consume_bytes(k);
        Ok(v as u16)
    }

    /// Reads an unsigned integer that fits in `u32`.
    pub fn deserialize_u32(&mut self) -> (r: Result<u32, Error>)
        ensures
            took(
                old(self)@,
                final(self)@,
                match r {
                    Ok(x) => Ok(x as u64),
                    Err(e) => Err(e),
                },
                narrow_unsigned(parse_unsigned(old(self)@), u32::MAX as u64),
            ),
    {
        let (v, k) = match decode_unsigned(self.input) {
            Ok(found) => found,
            Err(e) => {
                return Err(e);
            },
        };
        if v > u32::MAX as u64 {
            return Err(Error::NumberTooLarge);
        }
        self.consume_bytes(k);
        Ok(v as u32)
    }

    /// Reads an unsigned integer.
    pub fn deserialize_u64(&mut self) -> (r: Result<u64, Error>)
        ensures
            took(old(self)@, final(self)@, r, parse_unsigned(old(self)@)),
    {
        self.parse_unsigned()
    }

    /// Reads an integer that fits in `i8`.
    pub fn deserialize_i8(&mut self) -> (r: Result<i8, Error>)
        ensures
            took(
                old(self)@,
                final(self)@,
                match r {
                    Ok(x) => Ok(x as i64),
                    Err(e) => Err(e),
                },
                narrow_signed(parse_signed(old(self)@), i8::MIN as i64, i8::MAX as i64),
            ),
    {
        let (v, k) = match decode_signed(self.input) {
            Ok(found) => found,
            Err(e) => {
                return Err(e);
            },
        };
        if v < i8::MIN as i64 || v > i8::MAX as i64 {
            return Err(Error::NumberTooLarge);
        }
        self.consume_bytes(k);
        Ok(v as i8)
    }

    /// Reads an integer that fits in `i16`.
    pub fn deserialize_i16(&mut self) -> (r: Result<i16, Error>)
        ensures
            took(
                old(self)@,
                final(self)@,
                match r {
                    Ok(x) => Ok(x as i64),
                    Err(e) => Err(e),
                },
                narrow_signed(parse_signed(old(self)@), i16::MIN as i64, i16::MAX as i64),
            ),
    {
        let (v, k) = match decode_signed(self.input) {
            Ok(found) => found,
            Err(e) => {
                return Err(e);
            },
        };
        if v < i16::MIN as i64 || v > i16::MAX as i64 {
            return Err(Error::NumberTooLarge);
        }
        self.consume_bytes(k);
        Ok(v as i16)
    }

    /// Reads an integer that fits in `i32`.
    pub fn deserialize_i32(&mut self) -> (r: Result<i32, Error>)
        ensures
            took(
                old(self)@,
                final(self)@,
                match r {
                    Ok(x) => Ok(x as i64),
                    Err(e) => Err(e),
                },
                narrow_signed(parse_signed(old(self)@), i32::MIN as i64, i32::MAX as i64),
            ),
    {
        let (v, k) = match decode_signed(self.input) {
            Ok(found) => found,
            Err(e) => {
                return Err(e);
            },
        };
        if v < i32::MIN as i64 || v > i32::MAX as i64 {
            return Err(Error::NumberTooLarge);
        }
        self.consume_bytes(k);
        Ok(v as i32)
    }

    /// Reads an integer that fits in `i64`.
    pub fn deserialize_i64(&mut self) -> (r: Result<i64, Error>)
        ensures
            took(old(self)@, final(self)@, r, parse_signed(old(self)@)),
    {
        self.parse_signed()
    }

    /// Reads an array: its elements.
    pub fn deserialize_seq(&mut self) -> (r: Result<Vec<Value>, Error>)
        ensures
            r is Err ==> final(self)@ == old(self)@,
            old(self)@.len() == 0 ==> r == Err::<Vec<Value>, Error>(Error::Eof),
            old(self)@.len() > 0 && !is_array_tag(old(self)@[0]) ==> r == Err::<Vec<Value>, Error>(
                Error::ExpectedArray,
            ),
            old(self)@.len() > 0 && is_array_tag(old(self)@[0]) ==> match (
                r,
                parse_value(old(self)@),
            ) {
                (Ok(items), Ok((ValueView::Array(svs), k))) => views(items@) == svs && final(self)@
                    == old(self)@.subrange(k as int, old(self)@.len() as int),
                (Err(e), Err(se)) => e == se && final(self)@ == old(self)@,
                _ => false,
            },
    {
        let t = match self.peek_byte() {
            Ok(t) => t,
            Err(e) => {
                return Err(e);
            },
        };
        if !((0x01 <= t && t <= 0x09) || t == 0x13) {
            return Err(Error::ExpectedArray);
        }
        proof {
            lemma_container_kind(self@);
        }
        match self.deserialize_any() {
            Ok(Value::Array(items)) => {
                proof {
                    lemma_array_view(items);
                }
                Ok(items)
            },
            Ok(_) => Err(Error::ExpectedArray),
            Err(e) => Err(e),
        }
    }

    /// Reads an object: its entries in stored order.
    pub fn deserialize_map(&mut self) -> (r: Result<Vec<(String, Value)>, Error>)
        ensures
            r is Err ==> final(self)@ == old(self)@,
            old(self)@.len() == 0 ==> r == Err::<Vec<(String, Value)>, Error>(Error::Eof),
            old(self)@.len() > 0 && !is_object_tag(old(self)@[0]) ==> r == Err::<
                Vec<(String, Value)>,
                Error,
            >(Error::ExpectedObject),
            old(self)@.len() > 0 && is_object_tag(old(self)@[0]) ==> match (
                r,
                parse_value(old(self)@),
            ) {
                (Ok(es), Ok((ValueView::Object(ses), k))) => entry_views(es@) == ses
                    && final(self)@ == old(self)@.subrange(k as int, old(self)@.len() as int),
                (Err(e), Err(se)) => e == se && final(self)@ == old(self)@,
                _ => false,
            },
    {
        let t = match self.peek_byte() {
            Ok(t) => t,
            Err(e) => {
                return Err(e);
            },
        };
        if !((0x0a <= t && t <= 0x12) || t == 0x14) {
            return Err(Error::ExpectedObject);
        }
        proof {
            lemma_container_kind(self@);
        }
        match self.deserialize_any() {
            Ok(Value::Object(es)) => {
                proof {
                    lemma_object_view(es);
                }
                Ok(es)
            },
            Ok(_) => Err(Error::ExpectedObject),
            Err(e) => Err(e),
        }
    }

    /// Succeeds when nothing is left to read; else says how much is.
    pub fn end(&self) -> (r: Result<(), Error>)
        ensures
            self@.len() == 0 ==> r is Ok,
            self@.len() > 0 ==> r == Err::<(), Error>(Error::TrailingBytes(self@.len() as usize)),
    {
        if self.input.len() == 0 {
            Ok(())
        } else {
            Err(Error::TrailingBytes(self.input.len()))
        }
    }
}

/// Decodes an input that holds exactly one value.
pub fn from_bytes(s: &[u8]) -> (r: Result<Value, Error>)
    ensures
        match (r, decode_all(s@)) {
            (Ok(v), Ok(sv)) => v@ == sv,
            (Err(e), Err(se)) => e == se,
            _ => false,
        },
{
    match decode_value(s) {
        Ok((v, k)) => {
            proof {
                lemma_parse_value_consumed(s@);
            }
            if k < s.len() {
                Err(Error::TrailingBytes(s.len() - k))
            } else {
                Ok(v)
            }
        },
        Err(e) => Err(e),
    }
}

/// Decodes the first value of an input, and gives the bytes that follow it.
pub fn first_from_bytes<'a>(s: &'a [u8]) -> (r: Result<(Value, &'a [u8]), Error>)
    ensures
        match (r, parse_value(s@)) {
            (Ok((v, rest)), Ok((sv, k))) => v@ == sv && rest@ == s@.subrange(
                k as int,
                s@.len() as int,
            ),
            (Err(e), Err(se)) => e == se,
            _ => false,
        },
{
    let mut de = Deserializer::from_bytes(s);
    match de.deserialize_any() {
        Ok(v) => Ok((v, de.remaining())),
        Err(e) => Err(e),
    }
}

} // verus!
