//! What a byte string decodes to: the grammar of the format as spec functions.
//! Each function reads the front of `s` and gives what it found and how many
//! bytes that took, or the error that stops the decode. A container's items
//! are read from the bytes of its own region only.
use vstd::prelude::*;
use vstd::utf8::{decode_utf8, valid_utf8};
use crate::error::Error;
use crate::format::{byte_limit, le_value};
use crate::value::ValueView;
use crate::varint::{
    forward_varint,
    lemma_varint_round_trip,
    read_varint,
    reverse_varint,
    varint_bytes,
    varint_limit,
    VARINT_MAX_BYTES,
};

verus! {

pub open spec fn parse_null(s: Seq<u8>) -> Result<nat, Error> {
    if s.len() == 0 {
        Err(Error::Eof)
    } else if s[0] == 0x18 {
        Ok(1)
    } else {
        Err(Error::ExpectedNull)
    }
}

pub open spec fn parse_bool(s: Seq<u8>) -> Result<(bool, nat), Error> {
    if s.len() == 0 {
        Err(Error::Eof)
    } else if s[0] == 0x19 {
        Ok((false, 1))
    } else if s[0] == 0x1a {
        Ok((true, 1))
    } else {
        Err(Error::ExpectedBoolean)
    }
}

/// A double, as the bits of its binary64 form.
pub open spec fn parse_double(s: Seq<u8>) -> Result<(u64, nat), Error> {
    if s.len() == 0 {
        Err(Error::Eof)
    } else if s[0] != 0x1b {
        Err(Error::ExpectedDouble)
    } else if s.len() < 9 {
        Err(Error::Eof)
    } else {
        Ok((le_value(s.subrange(1, 9)) as u64, 9))
    }
}

pub open spec fn parse_unsigned(s: Seq<u8>) -> Result<(u64, nat), Error> {
    if s.len() == 0 {
        Err(Error::Eof)
    } else if 0x28 <= s[0] <= 0x2f {
        let n = s[0] - 0x27;
        if s.len() < 1 + n {
            Err(Error::Eof)
        } else {
            Ok((le_value(s.subrange(1, 1 + n as int)) as u64, (1 + n) as nat))
        }
    } else if 0x30 <= s[0] <= 0x39 {
        Ok(((s[0] - 0x30) as u64, 1))
    } else {
        Err(Error::ExpectedInteger)
    }
}

/// The two's complement number whose `n` bytes read as `u` unsigned.
pub open spec fn sign_extend(u: nat, n: nat) -> int {
    if 2 * u >= byte_limit(n) {
        u - byte_limit(n)
    } else {
        u as int
    }
}

/// A signed integer; an unsigned one is accepted when it fits in `i64`.
pub open spec fn parse_signed(s: Seq<u8>) -> Result<(i64, nat), Error> {
    if s.len() == 0 {
        Err(Error::Eof)
    } else if 0x3a <= s[0] <= 0x3f {
        Ok(((s[0] - 0x40) as i64, 1))
    } else if 0x20 <= s[0] <= 0x27 {
        let n = s[0] - 0x1f;
        if s.len() < 1 + n {
            Err(Error::Eof)
        } else {
            Ok((sign_extend(le_value(s.subrange(1, 1 + n as int)), n as nat) as i64, (1 + n) as nat))
        }
    } else {
        match parse_unsigned(s) {
            Ok((u, k)) => if u > i64::MAX {
                Err(Error::NumberTooLarge)
            } else {
                Ok((u as i64, k))
            },
            Err(e) => Err(e),
        }
    }
}

/// `n` bytes of UTF-8 that start at `start`.
pub open spec fn utf8_field(s: Seq<u8>, start: nat, n: nat) -> Result<(Seq<char>, nat), Error> {
    if s.len() < start + n {
        Err(Error::Eof)
    } else {
        let b = s.subrange(start as int, (start + n) as int);
        if valid_utf8(b) {
            Ok((decode_utf8(b), start + n))
        } else {
            Err(Error::InvalidUtf8)
        }
    }
}

pub open spec fn parse_string(s: Seq<u8>) -> Result<(Seq<char>, nat), Error> {
    if s.len() == 0 {
        Err(Error::Eof)
    } else if 0x40 <= s[0] <= 0xbe {
        utf8_field(s, 1, (s[0] - 0x40) as nat)
    } else if s[0] == 0xbf {
        if s.len() < 9 {
            Err(Error::Eof)
        } else {
            utf8_field(s, 9, le_value(s.subrange(1, 9)))
        }
    } else {
        Err(Error::ExpectedString)
    }
}

/// The field width that the low two bits of a container tag select.
pub open spec fn width_of(code: int) -> nat {
    if code == 0 {
        1
    } else if code == 1 {
        2
    } else if code == 2 {
        4
    } else {
        8
    }
}

/// How many zero bytes of padding `s` starts with.
pub open spec fn zero_run(s: Seq<u8>) -> nat
    decreases s.len(),
{
    if s.len() > 0 && s[0] == 0 {
        1 + zero_run(s.drop_first())
    } else {
        0
    }
}

/// The frame of an indexed container whose fields are `w` bytes wide: its
/// declared length, its item count, and where its item bytes start and end.
/// With 8-byte fields the count is the container's last field.
pub open spec fn indexed_layout(s: Seq<u8>, w: nat) -> Result<(nat, nat, nat, nat), Error> {
    if s.len() < 1 + w {
        Err(Error::Eof)
    } else {
        let len = le_value(s.subrange(1, 1 + w as int));
        if len > s.len() {
            Err(Error::Eof)
        } else if w == 8 {
            if len < 17 {
                Err(Error::Malformed)
            } else {
                let n = le_value(s.subrange(len - 8, len as int));
                if 17 + 8 * n > len {
                    Err(Error::Malformed)
                } else {
                    Ok((len, n, 9, (len - 8 - 8 * n) as nat))
                }
            }
        } else if len < 1 + 2 * w {
            Err(Error::Malformed)
        } else {
            let n = le_value(s.subrange(1 + w as int, 1 + 2 * w as int));
            if 1 + 2 * w + n * w > len {
                Err(Error::Malformed)
            } else {
                Ok((len, n, 1 + 2 * w, (len - n * w) as nat))
            }
        }
    }
}

/// The items of a container, read one after another from its region `r`.
pub open spec fn parse_items(r: Seq<u8>, n: nat) -> Result<Seq<ValueView>, Error>
    decreases r.len(), 2nat,
{
    if n == 0 {
        Ok(seq![])
    } else {
        match parse_value(r) {
            Err(e) => Err(e),
            Ok((v, k)) => if k == 0 || k > r.len() {
                Err(Error::Malformed)
            } else {
                match parse_items(r.subrange(k as int, r.len() as int), (n - 1) as nat) {
                    Ok(rest) => Ok(seq![v] + rest),
                    Err(e) => Err(e),
                }
            },
        }
    }
}

/// The entries of an object, each a string key and then its value, read one
/// after another from its region `r`.
pub open spec fn parse_entries(r: Seq<u8>, n: nat) -> Result<Seq<(Seq<char>, ValueView)>, Error>
    decreases r.len(), 2nat,
{
    if n == 0 {
        Ok(seq![])
    } else {
        match parse_string(r) {
            Err(e) => Err(e),
            Ok((key, k)) => if k == 0 || k > r.len() {
                Err(Error::Malformed)
            } else {
                let r2 = r.subrange(k as int, r.len() as int);
                match parse_value(r2) {
                    Err(e) => Err(e),
                    Ok((v, k2)) => if k2 == 0 || k2 > r2.len() {
                        Err(Error::Malformed)
                    } else {
                        match parse_entries(
                            r2.subrange(k2 as int, r2.len() as int),
                            (n - 1) as nat,
                        ) {
                            Ok(rest) => Ok(seq![(key, v)] + rest),
                            Err(e) => Err(e),
                        }
                    },
                }
            },
        }
    }
}

/// The `n` items, or entries when `object` holds, of a container's region.
pub open spec fn parse_contents(r: Seq<u8>, n: nat, object: bool) -> Result<ValueView, Error>
    decreases r.len(), 3nat,
{
    if object {
        match parse_entries(r, n) {
            Ok(es) => Ok(ValueView::Object(es)),
            Err(e) => Err(e),
        }
    } else {
        match parse_items(r, n) {
            Ok(vs) => Ok(ValueView::Array(vs)),
            Err(e) => Err(e),
        }
    }
}

/// An array whose elements all have one length, and which has no index: the
/// first element gives that length and so the count.
pub open spec fn parse_equal_array(s: Seq<u8>, w: nat) -> Result<(ValueView, nat), Error>
    decreases s.len(), 0nat,
{
    if s.len() < 1 + w {
        Err(Error::Eof)
    } else {
        let len = le_value(s.subrange(1, 1 + w as int));
        if len > s.len() {
            Err(Error::Eof)
        } else if len < 1 + w {
            Err(Error::Malformed)
        } else {
            let body = s.subrange(1 + w as int, len as int);
            let p = zero_run(body);
            if p >= body.len() {
                Err(Error::Malformed)
            } else {
                let r = body.subrange(p as int, body.len() as int);
                match parse_value(r) {
                    Err(e) => Err(e),
                    Ok((_, k)) => if k == 0 || r.len() % k != 0 {
                        Err(Error::Malformed)
                    } else {
                        match parse_items(r, r.len() / k) {
                            Ok(vs) => Ok((ValueView::Array(vs), len)),
                            Err(e) => Err(e),
                        }
                    },
                }
            }
        }
    }
}

/// An indexed array or object; its index table is not needed to read it.
pub open spec fn parse_indexed(s: Seq<u8>, w: nat, object: bool) -> Result<(ValueView, nat), Error>
    decreases s.len(), 0nat,
{
    match indexed_layout(s, w) {
        Err(e) => Err(e),
        Ok((len, n, a, b)) => if !(1 <= a <= b <= len <= s.len()) {
            Err(Error::Malformed)
        } else {
            let body = s.subrange(a as int, b as int);
            let p = zero_run(body);
            if p > body.len() {
                Err(Error::Malformed)
            } else {
                match parse_contents(body.subrange(p as int, body.len() as int), n, object) {
                    Ok(v) => Ok((v, len)),
                    Err(e) => Err(e),
                }
            }
        },
    }
}

/// A compact array or object: a forward varint of its length after the tag,
/// a reverse varint of its count at its end, the items in between.
pub open spec fn parse_compact(s: Seq<u8>, object: bool) -> Result<(ValueView, nat), Error>
    decreases s.len(), 0nat,
{
    if s.len() == 0 {
        Err(Error::Eof)
    } else {
        match forward_varint(s.subrange(1, s.len() as int)) {
            Err(e) => Err(e),
            Ok((len, k)) => if len > s.len() {
                Err(Error::Eof)
            } else if len < 2 + k {
                Err(Error::Malformed)
            } else {
                let tail = s.subrange(1 + k as int, len as int);
                match reverse_varint(tail) {
                    Err(e) => Err(e),
                    Ok((n, m)) => if m > tail.len() {
                        Err(Error::Malformed)
                    } else {
                        match parse_contents(tail.subrange(0, tail.len() - m), n, object) {
                            Ok(v) => Ok((v, len)),
                            Err(e) => Err(e),
                        }
                    },
                }
            },
        }
    }
}

/// The value at the front of `s`, chosen by its type byte.
pub open spec fn parse_value(s: Seq<u8>) -> Result<(ValueView, nat), Error>
    decreases s.len(), 1nat,
{
    if s.len() == 0 {
        Err(Error::Eof)
    } else {
        let t = s[0];
        if t == 0x01 {
            Ok((ValueView::Array(seq![]), 1))
        } else if 0x02 <= t <= 0x05 {
            parse_equal_array(s, width_of(t - 0x02))
        } else if 0x06 <= t <= 0x09 {
            parse_indexed(s, width_of(t - 0x06), false)
        } else if t == 0x0a {
            Ok((ValueView::Object(seq![]), 1))
        } else if 0x0b <= t <= 0x12 {
            parse_indexed(s, width_of((t - 0x0b) % 4), true)
        } else if t == 0x13 {
            parse_compact(s, false)
        } else if t == 0x14 {
            parse_compact(s, true)
        } else if t == 0x18 {
            Ok((ValueView::Null, 1))
        } else if t == 0x19 || t == 0x1a {
            match parse_bool(s) {
                Ok((b, k)) => Ok((ValueView::Bool(b), k)),
                Err(e) => Err(e),
            }
        } else if t == 0x1b {
            match parse_double(s) {
                Ok((d, k)) => Ok((ValueView::Double(d), k)),
                Err(e) => Err(e),
            }
        } else if (0x20 <= t <= 0x27) || (0x3a <= t <= 0x3f) {
            match parse_signed(s) {
                Ok((i, k)) => Ok((ValueView::Int(i), k)),
                Err(e) => Err(e),
            }
        } else if 0x28 <= t <= 0x39 {
            match parse_unsigned(s) {
                Ok((u, k)) => Ok((ValueView::UInt(u), k)),
                Err(e) => Err(e),
            }
        } else if 0x40 <= t <= 0xbf {
            match parse_string(s) {
                Ok((c, k)) => Ok((ValueView::Str(c), k)),
                Err(e) => Err(e),
            }
        } else {
            Err(Error::Unimplemented(t))
        }
    }
}

/// A whole input that holds exactly one value.
pub open spec fn decode_all(s: Seq<u8>) -> Result<ValueView, Error> {
    match parse_value(s) {
        Ok((v, k)) => if k < s.len() {
            Err(Error::TrailingBytes((s.len() - k) as usize))
        } else {
            Ok(v)
        },
        Err(e) => Err(e),
    }
}

proof fn lemma_prefix_subranges(b: Seq<u8>, t: Seq<u8>)
    ensures
        forall|i: int, j: int|
            0 <= i <= j <= b.len() ==> #[trigger] (b + t).subrange(i, j) == b.subrange(i, j),
{
    assert forall|i: int, j: int| 0 <= i <= j <= b.len() implies #[trigger] (b + t).subrange(
        i,
        j,
    ) == b.subrange(i, j) by {
        assert((b + t).subrange(i, j) =~= b.subrange(i, j));
    }
}

proof fn lemma_read_varint_extend(s: Seq<u8>, t: Seq<u8>, limit: nat)
    requires
        read_varint(s, limit) is Ok,
    ensures
        read_varint(s + t, limit) == read_varint(s, limit),
    decreases limit,
{
    assert((s + t)[0] == s[0]);
    if s[0] >= 128 {
        assert((s + t).drop_first() =~= s.drop_first() + t);
        lemma_read_varint_extend(s.drop_first(), t, (limit - 1) as nat);
    }
}

/// What a value read finds does not depend on the bytes that follow.
pub proof fn lemma_parse_value_extend(b: Seq<u8>, t: Seq<u8>)
    requires
        parse_value(b) is Ok,
    ensures
        parse_value(b + t) == parse_value(b),
{
    lemma_prefix_subranges(b, t);
    let s = b + t;
    assert(s[0] == b[0]);
    if b[0] == 0x13 || b[0] == 0x14 {
        assert(s.subrange(1, s.len() as int) =~= b.subrange(1, b.len() as int) + t);
        lemma_read_varint_extend(b.subrange(1, b.len() as int), t, VARINT_MAX_BYTES as nat);
    }
}

/// A whole-input decode of a value followed by `t` more bytes reports
/// exactly those bytes as trailing.
pub proof fn lemma_trailing_bytes(b: Seq<u8>, t: Seq<u8>)
    requires
        parse_value(b) matches Ok((_, k)) && k == b.len(),
        t.len() > 0,
    ensures
        decode_all(b + t) == Err::<ValueView, Error>(Error::TrailingBytes(t.len() as usize)),
{
    lemma_parse_value_extend(b, t);
}

/// A compact container takes its length from the forward varint after its
/// tag and its count from the reverse varint at its end; its items are the
/// bytes in between, and the bytes after it are left unread.
pub proof fn lemma_compact_frame(tag: u8, len: nat, n: nat, items: Seq<u8>, rest: Seq<u8>)
    requires
        tag == 0x13 || tag == 0x14,
        len < varint_limit(),
        n < varint_limit(),
        len == 1 + varint_bytes(len).len() + items.len() + varint_bytes(n).len(),
    ensures
        parse_value(seq![tag] + varint_bytes(len) + items + varint_bytes(n).reverse() + rest)
            == match parse_contents(items, n, tag == 0x14) {
            Ok(v) => Ok::<(ValueView, nat), Error>((v, len)),
            Err(e) => Err(e),
        },
{
    let fwd = varint_bytes(len);
    let rev = varint_bytes(n).reverse();
    let s = seq![tag] + fwd + items + rev + rest;
    assert(s[0] == tag);
    assert(s.subrange(1, s.len() as int) =~= fwd + (items + rev + rest));
    lemma_varint_round_trip(len, items + rev + rest);
    assert(varint_bytes(n).len() >= 1);
    let tail = s.subrange(1 + fwd.len() as int, len as int);
    assert(tail =~= items + rev);
    lemma_varint_round_trip(n, items);
    assert(tail.subrange(0, tail.len() - varint_bytes(n).len()) =~= items);
}

} // verus!
