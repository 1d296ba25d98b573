//! Little-endian integer fields: what their bytes mean and how they are
//! written and read.
use vstd::prelude::*;

verus! {

/// One more than the largest number that `w` bytes can hold.
pub open spec fn byte_limit(w: nat) -> nat
    decreases w,
{
    if w == 0 {
        1
    } else {
        256 * byte_limit((w - 1) as nat)
    }
}

/// The `w` low-order bytes of `v`, least significant first.
pub open spec fn le_bytes(v: nat, w: nat) -> Seq<u8>
    decreases w,
{
    if w == 0 {
        seq![]
    } else {
        seq![(v % 256) as u8] + le_bytes(v / 256, (w - 1) as nat)
    }
}

/// The number that a little-endian byte string stands for.
pub open spec fn le_value(b: Seq<u8>) -> nat
    decreases b.len(),
{
    if b.len() == 0 {
        0
    } else {
        b[0] as nat + 256 * le_value(b.drop_first())
    }
}

pub proof fn lemma_byte_limit_values()
    ensures
        byte_limit(0) == 1,
        byte_limit(1) == 0x100,
        byte_limit(2) == 0x1_0000,
        byte_limit(3) == 0x100_0000,
        byte_limit(4) == 0x1_0000_0000,
        byte_limit(5) == 0x100_0000_0000,
        byte_limit(6) == 0x1_0000_0000_0000,
        byte_limit(7) == 0x100_0000_0000_0000,
        byte_limit(8) == 0x1_0000_0000_0000_0000,
{
    reveal_with_fuel(byte_limit, 9);
}

pub proof fn lemma_byte_limit_monotonic(a: nat, b: nat)
    requires
        a <= b,
    ensures
        1 <= byte_limit(a) <= byte_limit(b),
    decreases b,
{
    if a < b {
        lemma_byte_limit_monotonic(a, (b - 1) as nat);
    } else if b > 0 {
        lemma_byte_limit_monotonic((b - 1) as nat, (b - 1) as nat);
    }
}

pub proof fn lemma_le_bytes_len(v: nat, w: nat)
    ensures
        le_bytes(v, w).len() == w,
    decreases w,
{
    if w > 0 {
        lemma_le_bytes_len(v / 256, (w - 1) as nat);
    }
}

/// A little-endian field reads back as the number it was written from,
/// reduced to what its width can hold.
pub proof fn lemma_le_round_trip(v: nat, w: nat)
    ensures
        le_value(le_bytes(v, w)) == v % byte_limit(w),
    decreases w,
{
    lemma_le_bytes_len(v, w);
    if w > 0 {
        let rest = le_bytes(v / 256, (w - 1) as nat);
        lemma_le_round_trip(v / 256, (w - 1) as nat);
        assert(le_bytes(v, w).drop_first() =~= rest);
        let l = byte_limit((w - 1) as nat);
        lemma_byte_limit_monotonic(0, (w - 1) as nat);
        assert(v % 256 + 256 * ((v / 256) % l) == v % (256 * l)) by (nonlinear_arith)
            requires
                l >= 1,
        {
            vstd::arithmetic::div_mod::lemma_breakdown(v as int, 256, l as int);
        }
    }
}

/// What a field of `b.len()` bytes holds is below the limit of that width.
pub proof fn lemma_le_value_bound(b: Seq<u8>)
    ensures
        le_value(b) < byte_limit(b.len()),
    decreases b.len(),
{
    if b.len() > 0 {
        lemma_le_value_bound(b.drop_first());
        let x = le_value(b.drop_first());
        let l = byte_limit((b.len() - 1) as nat);
        assert(b[0] as nat + 256 * x < 256 * l) by (nonlinear_arith)
            requires
                x < l,
                b[0] < 256,
        ;
    }
}

/// Appends the `w` low-order bytes of `v` to `out`, least significant first.
pub fn push_le(out: &mut Vec<u8>, v: u64, w: usize)
    ensures
        final(out)@ == old(out)@ + le_bytes(v as nat, w as nat),
{
    let ghost start = old(out)@;
    let mut x: u64 = v;
    let mut i: usize = 0;
    while i < w
        invariant
            i <= w,
            start + le_bytes(v as nat, w as nat) == out@ + le_bytes(x as nat, (w - i) as nat),
        decreases w - i,
    {
        let ghost before = out@;
        assert(le_bytes(x as nat, (w - i) as nat) == seq![(x % 256) as u8] + le_bytes(
            (x / 256) as nat,
            (w - i - 1) as nat,
        ));
        out.push((x % 256) as u8);
        assert(before + le_bytes(x as nat, (w - i) as nat) =~= out@ + le_bytes(
            (x / 256) as nat,
            (w - i - 1) as nat,
        ));
        x = x / 256;
        i = i + 1;
    }
    assert(le_bytes(x as nat, 0) =~= Seq::<u8>::empty());
    assert(out@ =~= start + le_bytes(v as nat, w as nat));
}

/// Appends every byte of `b` to `out`, in order.
pub fn push_bytes(out: &mut Vec<u8>, b: &[u8])
    ensures
        final(out)@ == old(out)@ + b@,
{
    let ghost start = old(out)@;
    let n = b.len();
    let mut i: usize = 0;
    while i < n
        invariant
            i <= n,
            n == b@.len(),
            out@ == start + b@.subrange(0, i as int),
        decreases n - i,
    {
        out.push(b[i]);
        assert(out@ =~= start + b@.subrange(0, i + 1));
        i = i + 1;
    }
    assert(b@.subrange(0, n as int) =~= b@);
}

/// Reads the little-endian field of `w` bytes that starts at `pos`.
pub fn read_le(b: &[u8], pos: usize, w: usize) -> (r: u64)
    requires
        pos + w <= b@.len(),
        w <= 8,
    ensures
        r as nat == le_value(b@.subrange(pos as int, pos + w)),
{
    let n = b.len();
    let mut acc: u64 = 0;
    let mut j: usize = w;
    proof {
        assert(b@.subrange(pos + w, pos + w) =~= Seq::<u8>::empty());
    }
    while j > 0
        invariant
            j <= w <= 8,
            pos + w <= b@.len(),
            n == b@.len(),
            acc as nat == le_value(b@.subrange(pos + j, pos + w)),
        decreases j,
    {
        let ghost tail = b@.subrange(pos + j, pos + w);
        let ghost longer = b@.subrange(pos + j - 1, pos + w);
        proof {
            assert(longer.drop_first() =~= tail);
            lemma_le_value_bound(tail);
            lemma_byte_limit_monotonic(tail.len(), 7);
            lemma_byte_limit_values();
            reveal_with_fuel(byte_limit, 8);
            assert(acc * 256 + 255 < 0x1_0000_0000_0000_0000) by (nonlinear_arith)
                requires
                    acc < byte_limit(7),
                    byte_limit(7) == 0x100_0000_0000_0000,
            ;
        }
        acc = acc * 256 + b[pos + j - 1] as u64;
        j = j - 1;
    }
    acc
}

} // verus!
