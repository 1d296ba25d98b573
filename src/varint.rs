//! Variable-length unsigned integers of compact containers: 7-bit groups,
//! least significant first, the high bit set on every byte but the last. A
//! reverse varint holds the same bytes in reverse order, so that it is read
//! from the tail of a region toward its head.
use vstd::prelude::*;
use crate::error::Error;

verus! {

/// The most bytes a varint may take: ten groups of seven bits cover a 64-bit
/// accumulator.
pub const VARINT_MAX_BYTES: usize = 10;

/// The bytes of the varint of `v`, in reading order.
pub open spec fn varint_bytes(v: nat) -> Seq<u8>
    decreases v,
{
    if v < 128 {
        seq![v as u8]
    } else {
        seq![(128 + v % 128) as u8] + varint_bytes(v / 128)
    }
}

/// Reads a varint from the front of `s`, taking at most `limit` bytes: the
/// value and the number of bytes it took. It fails with `Malformed` when
/// `limit` bytes all have the high bit set, and with `Eof` when `s` ends first.
pub open spec fn read_varint(s: Seq<u8>, limit: nat) -> Result<(nat, nat), Error>
    decreases limit,
{
    if limit == 0 {
        Err(Error::Malformed)
    } else if s.len() == 0 {
        Err(Error::Eof)
    } else if s[0] < 128 {
        Ok((s[0] as nat, 1))
    } else {
        match read_varint(s.drop_first(), (limit - 1) as nat) {
            Ok((v, k)) => Ok((((s[0] - 128) + 128 * v) as nat, k + 1)),
            Err(e) => Err(e),
        }
    }
}

/// A forward varint in the first bytes of `s`.
pub open spec fn forward_varint(s: Seq<u8>) -> Result<(nat, nat), Error> {
    within_64_bits(read_varint(s, VARINT_MAX_BYTES as nat))
}

/// A reverse varint in the last bytes of `s`.
pub open spec fn reverse_varint(s: Seq<u8>) -> Result<(nat, nat), Error> {
    within_64_bits(read_varint(s.reverse(), VARINT_MAX_BYTES as nat))
}

/// A varint read whose value must fit the 64-bit accumulator.
pub open spec fn within_64_bits(r: Result<(nat, nat), Error>) -> Result<(nat, nat), Error> {
    match r {
        Ok((v, k)) => if v >= varint_limit() {
            Err(Error::Malformed)
        } else {
            Ok((v, k))
        },
        Err(e) => Err(e),
    }
}

/// A varint that reads takes at least one byte and no more than there are.
pub proof fn lemma_read_varint_len(s: Seq<u8>, limit: nat)
    ensures
        read_varint(s, limit) matches Ok((_, k)) ==> 1 <= k <= s.len(),
    decreases limit,
{
    if limit > 0 && s.len() > 0 && s[0] >= 128 {
        lemma_read_varint_len(s.drop_first(), (limit - 1) as nat);
    }
}

/// The values a varint may hold: those of the 64-bit accumulator.
pub open spec fn varint_limit() -> nat {
    0x1_0000_0000_0000_0000
}

pub proof fn lemma_varint_bytes_len(v: nat, k: nat)
    requires
        v < pow128(k),
        k >= 1,
    ensures
        1 <= varint_bytes(v).len() <= k,
    decreases v,
{
    if v >= 128 {
        assert(k >= 2) by {
            if k == 1 {
                assert(pow128(1) == 128) by {
                    reveal_with_fuel(pow128, 2);
                }
            }
        }
        assert(v / 128 < pow128((k - 1) as nat)) by {
            assert(pow128(k) == 128 * pow128((k - 1) as nat));
            vstd::arithmetic::div_mod::lemma_div_by_multiple_is_strongly_ordered(
                v as int,
                (128 * pow128((k - 1) as nat)) as int,
                pow128((k - 1) as nat) as int,
                128,
            );
            assert((128 * pow128((k - 1) as nat)) / 128 == pow128((k - 1) as nat)) by (
            nonlinear_arith);
        }
        lemma_varint_bytes_len(v / 128, (k - 1) as nat);
    }
}

/// 128 to the power `k`.
pub open spec fn pow128(k: nat) -> nat
    decreases k,
{
    if k == 0 {
        1
    } else {
        128 * pow128((k - 1) as nat)
    }
}

/// A varint reads back as the number it was written from, whatever follows
/// it, when it takes no more bytes than the limit.
pub proof fn lemma_read_varint_bytes(v: nat, rest: Seq<u8>, limit: nat)
    requires
        varint_bytes(v).len() <= limit,
    ensures
        read_varint(varint_bytes(v) + rest, limit) == Ok::<(nat, nat), Error>(
            (v, varint_bytes(v).len()),
        ),
    decreases v,
{
    let s = varint_bytes(v) + rest;
    if v < 128 {
        assert(s[0] == v as u8);
    } else {
        let tail = varint_bytes(v / 128);
        assert(s.drop_first() =~= tail + rest);
        lemma_read_varint_bytes(v / 128, rest, (limit - 1) as nat);
        assert(s[0] == (128 + v % 128) as u8);
    }
}

/// Forward and reverse varints read back as the values written, for every
/// 64-bit value: the forward one from the front of whatever follows it,
/// the reverse one from the tail of whatever precedes it.
pub proof fn lemma_varint_round_trip(v: nat, other: Seq<u8>)
    requires
        v < varint_limit(),
    ensures
        forward_varint(varint_bytes(v) + other) == Ok::<(nat, nat), Error>(
            (v, varint_bytes(v).len()),
        ),
        reverse_varint(other + varint_bytes(v).reverse()) == Ok::<(nat, nat), Error>(
            (v, varint_bytes(v).len()),
        ),
{
    assert(pow128(10) == 0x40_0000_0000_0000_0000) by {
        reveal_with_fuel(pow128, 11);
    }
    lemma_varint_bytes_len(v, 10);
    lemma_read_varint_bytes(v, other, 10);
    lemma_read_varint_bytes(v, other.reverse(), 10);
    assert((other + varint_bytes(v).reverse()).reverse() =~= varint_bytes(v) + other.reverse());
}

/// Appends the forward varint of `v`.
pub fn push_varint(out: &mut Vec<u8>, v: u64)
    ensures
        final(out)@ == old(out)@ + varint_bytes(v as nat),
{
    let ghost start = old(out)@;
    let mut x: u64 = v;
    while x >= 128
        invariant
            start + varint_bytes(v as nat) == out@ + varint_bytes(x as nat),
        decreases x,
    {
        let ghost before = out@;
        out.push((128 + x % 128) as u8);
        assert(before + varint_bytes(x as nat) =~= out@ + varint_bytes((x / 128) as nat));
        x = x / 128;
    }
    out.push(x as u8);
    assert(out@ =~= start + varint_bytes(v as nat));
}

/// Appends the reverse varint of `v`: the bytes of its forward varint, last
/// first.
pub fn push_reverse_varint(out: &mut Vec<u8>, v: u64)
    ensures
        final(out)@ == old(out)@ + varint_bytes(v as nat).reverse(),
{
    let mut fwd: Vec<u8> = Vec::new();
    push_varint(&mut fwd, v);
    assert(fwd@ =~= varint_bytes(v as nat));
    let ghost start = old(out)@;
    let n = fwd.len();
    let mut i: usize = n;
    while i > 0
        invariant
            i <= n,
            n == fwd@.len(),
            out@ == start + fwd@.subrange(i as int, n as int).reverse(),
        decreases i,
    {
        out.push(fwd[i - 1]);
        assert(fwd@.subrange(i - 1, n as int).reverse() =~= fwd@.subrange(
            i as int,
            n as int,
        ).reverse().push(fwd@[i - 1]));
        i = i - 1;
    }
    assert(fwd@.subrange(0, n as int) =~= fwd@);
}

/// Reads a forward varint from `b[pos..end]`: its value and its length.
pub fn read_forward_varint(b: &[u8], pos: usize, end: usize) -> (r: Result<(u64, usize), Error>)
    requires
        pos <= end <= b@.len(),
    ensures
        match (r, forward_varint(b@.subrange(pos as int, end as int))) {
            (Ok((v, k)), Ok((sv, sk))) => v as nat == sv && k as nat == sk,
            (Err(e), Err(se)) => e == se,
            _ => false,
        },
{
    let ghost s = b@.subrange(pos as int, end as int);
    proof {
        assert(s.subrange(0, s.len() as int) =~= s);
        lemma_shift_identity(read_varint(s, 10));
    }
    let mut acc: u128 = 0;
    let mut mult: u128 = 1;
    let mut k: usize = 0;
    while k < VARINT_MAX_BYTES
        invariant
            pos <= end <= b@.len(),
            s == b@.subrange(pos as int, end as int),
            k <= VARINT_MAX_BYTES,
            mult as nat == pow128(k as nat),
            acc < mult,
            pos + k <= end,
            read_varint(s, 10) == shift(
                read_varint(s.subrange(k as int, s.len() as int), (10 - k) as nat),
                acc as nat,
                mult as nat,
                k as nat,
            ),
        decreases VARINT_MAX_BYTES - k,
    {
        let ghost rest = s.subrange(k as int, s.len() as int);
        if pos + k >= end {
            assert(rest.len() == 0);
            return Err(Error::Eof);
        }
        let byte = b[pos + k];
        assert(rest[0] == byte);
        proof {
            assert(mult <= pow128(9)) by {
                lemma_pow128_monotonic(k as nat, 9);
            }
            assert(pow128(9) == 0x8000_0000_0000_0000) by {
                reveal_with_fuel(pow128, 10);
            }
        }
        if byte < 128 {
            assert(acc + mult * byte < 0x40_0000_0000_0000_0000) by (nonlinear_arith)
                requires
                    acc < mult,
                    mult <= 0x8000_0000_0000_0000,
                    byte < 128,
            ;
            let total = acc + mult * byte as u128;
            assert(read_varint(rest, (10 - k) as nat) == Ok::<(nat, nat), Error>((byte as nat, 1)));
            assert(read_varint(s, 10) == Ok::<(nat, nat), Error>((total as nat, (k + 1) as nat)));
            if total >= 0x1_0000_0000_0000_0000 {
                assert(within_64_bits(read_varint(s, 10)) == Err::<(nat, nat), Error>(
                    Error::Malformed,
                ));
                return Err(Error::Malformed);
            }
            return Ok((total as u64, k + 1));
        }
        proof {
            assert(rest.drop_first() =~= s.subrange(k + 1, s.len() as int));
            assert(acc + mult * (byte - 128) < mult * 128) by (nonlinear_arith)
                requires
                    acc < mult,
                    byte < 256,
                    byte >= 128,
            ;
            assert(forall|x: int| #[trigger] (mult * x) == mult * x);
            assert(mult * 128 == pow128((k + 1) as nat));
            lemma_shift_step(rest, acc as nat, mult as nat, k as nat, (10 - k) as nat);
        }
        acc = acc + mult * (byte as u128 - 128);
        mult = mult * 128;
        k = k + 1;
    }
    Err(Error::Malformed)
}

/// Reads a reverse varint that ends at `b[end - 1]` and may reach back to
/// `b[start]`: its value and its length.
pub fn read_reverse_varint(b: &[u8], start: usize, end: usize) -> (r: Result<(u64, usize), Error>)
    requires
        start <= end <= b@.len(),
    ensures
        match (r, reverse_varint(b@.subrange(start as int, end as int))) {
            (Ok((v, k)), Ok((sv, sk))) => v as nat == sv && k as nat == sk,
            (Err(e), Err(se)) => e == se,
            _ => false,
        },
{
    let ghost s = b@.subrange(start as int, end as int).reverse();
    proof {
        assert(s.subrange(0, s.len() as int) =~= s);
        lemma_shift_identity(read_varint(s, 10));
    }
    let mut acc: u128 = 0;
    let mut mult: u128 = 1;
    let mut k: usize = 0;
    while k < VARINT_MAX_BYTES
        invariant
            start <= end <= b@.len(),
            s == b@.subrange(start as int, end as int).reverse(),
            s.len() == end - start,
            k <= VARINT_MAX_BYTES,
            mult as nat == pow128(k as nat),
            acc < mult,
            start + k <= end,
            read_varint(s, 10) == shift(
                read_varint(s.subrange(k as int, s.len() as int), (10 - k) as nat),
                acc as nat,
                mult as nat,
                k as nat,
            ),
        decreases VARINT_MAX_BYTES - k,
    {
        let ghost rest = s.subrange(k as int, s.len() as int);
        if start + k >= end {
            assert(rest.len() == 0);
            return Err(Error::Eof);
        }
        let byte = b[end - 1 - k];
        assert(rest[0] == byte);
        proof {
            assert(mult <= pow128(9)) by {
                lemma_pow128_monotonic(k as nat, 9);
            }
            assert(pow128(9) == 0x8000_0000_0000_0000) by {
                reveal_with_fuel(pow128, 10);
            }
        }
        if byte < 128 {
            assert(acc + mult * byte < 0x40_0000_0000_0000_0000) by (nonlinear_arith)
                requires
                    acc < mult,
                    mult <= 0x8000_0000_0000_0000,
                    byte < 128,
            ;
            let total = acc + mult * byte as u128;
            assert(read_varint(rest, (10 - k) as nat) == Ok::<(nat, nat), Error>((byte as nat, 1)));
            assert(read_varint(s, 10) == Ok::<(nat, nat), Error>((total as nat, (k + 1) as nat)));
            if total >= 0x1_0000_0000_0000_0000 {
                assert(within_64_bits(read_varint(s, 10)) == Err::<(nat, nat), Error>(
                    Error::Malformed,
                ));
                return Err(Error::Malformed);
            }
            return Ok((total as u64, k + 1));
        }
        proof {
            assert(rest.drop_first() =~= s.subrange(k + 1, s.len() as int));
            assert(acc + mult * (byte - 128) < mult * 128) by (nonlinear_arith)
                requires
                    acc < mult,
                    byte < 256,
                    byte >= 128,
            ;
            assert(mult * 128 == pow128((k + 1) as nat));
            lemma_shift_step(rest, acc as nat, mult as nat, k as nat, (10 - k) as nat);
        }
        acc = acc + mult * (byte as u128 - 128);
        mult = mult * 128;
        k = k + 1;
    }
    Err(Error::Malformed)
}

/// What a read of the remaining bytes gives, placed after `k` bytes that
/// already gave `acc` at the scale `mult`.
pub open spec fn shift(r: Result<(nat, nat), Error>, acc: nat, mult: nat, k: nat) -> Result<
    (nat, nat),
    Error,
> {
    match r {
        Ok((v, m)) => Ok((acc + mult * v, k + m)),
        Err(e) => Err(e),
    }
}

proof fn lemma_shift_identity(r: Result<(nat, nat), Error>)
    ensures
        shift(r, 0, 1, 0) == r,
{
    match r {
        Ok((v, m)) => {},
        Err(e) => {},
    }
}

proof fn lemma_pow128_monotonic(a: nat, b: nat)
    requires
        a <= b,
    ensures
        1 <= pow128(a) <= pow128(b),
    decreases b,
{
    if a < b {
        lemma_pow128_monotonic(a, (b - 1) as nat);
    } else if b > 0 {
        lemma_pow128_monotonic((b - 1) as nat, (b - 1) as nat);
    }
}

proof fn lemma_shift_step(rest: Seq<u8>, acc: nat, mult: nat, k: nat, limit: nat)
    requires
        limit > 0,
        rest.len() > 0,
        rest[0] >= 128,
    ensures
        shift(read_varint(rest, limit), acc, mult, k) == shift(
            read_varint(rest.drop_first(), (limit - 1) as nat),
            (acc + mult * (rest[0] - 128)) as nat,
            mult * 128,
            k + 1,
        ),
{
    match read_varint(rest.drop_first(), (limit - 1) as nat) {
        Ok((v, m)) => {
            assert(acc + mult * ((rest[0] - 128) + 128 * v) == (acc + mult * (rest[0] - 128)) + (
            mult * 128) * v) by (nonlinear_arith);
        },
        Err(e) => {},
    }
}

} // verus!
