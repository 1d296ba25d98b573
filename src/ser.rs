//! The encoder: the canonical byte form of each value, and builders that
//! write it.
use vstd::prelude::*;
use vstd::utf8::encode_utf8;
use vstd::seq_lib::lemma_flatten_concat;
use crate::format::{
    byte_limit,
    le_bytes,
    le_value,
    lemma_byte_limit_values,
    lemma_le_bytes_len,
    lemma_le_round_trip,
    push_bytes,
    push_le,
};
use crate::value::{entry_views, lemma_value_views, views, Value, ValueView};
use crate::order::{byte_seqs, entry_at_rank, key_before, lex_le, lemma_rank_permutation, rank, sorted_order};

verus! {

broadcast use vstd::std_specs::vec::group_vec_axioms;

/// The fewest bytes that hold the unsigned number `v`.
pub open spec fn uint_width(v: nat) -> nat {
    if v < 0x100 {
        1
    } else if v < 0x1_0000 {
        2
    } else if v < 0x100_0000 {
        3
    } else if v < 0x1_0000_0000 {
        4
    } else if v < 0x100_0000_0000 {
        5
    } else if v < 0x1_0000_0000_0000 {
        6
    } else if v < 0x100_0000_0000_0000 {
        7
    } else {
        8
    }
}

/// The fewest bytes whose two's complement holds the negative number `v`.
pub open spec fn neg_width(v: int) -> nat {
    if v >= -0x80 {
        1
    } else if v >= -0x8000 {
        2
    } else if v >= -0x80_0000 {
        3
    } else if v >= -0x8000_0000 {
        4
    } else if v >= -0x80_0000_0000 {
        5
    } else if v >= -0x8000_0000_0000 {
        6
    } else if v >= -0x80_0000_0000_0000 {
        7
    } else {
        8
    }
}

/// Canonical form of an unsigned integer: a small-integer tag for 0..9,
/// else the narrowest unsigned field.
pub open spec fn encode_uint(v: u64) -> Seq<u8> {
    if v < 10 {
        seq![(0x30 + v) as u8]
    } else {
        seq![(0x27 + uint_width(v as nat)) as u8] + le_bytes(v as nat, uint_width(v as nat))
    }
}

/// Canonical form of a signed integer: a non-negative one is written as
/// unsigned, -6..-1 by a tag alone, any other by the narrowest two's
/// complement field.
pub open spec fn encode_int(v: i64) -> Seq<u8> {
    if v >= 0 {
        encode_uint(v as u64)
    } else if v >= -6 {
        seq![(0x40 + v) as u8]
    } else {
        seq![(0x1f + neg_width(v as int)) as u8] + le_bytes(
            (v + byte_limit(neg_width(v as int))) as nat,
            neg_width(v as int),
        )
    }
}

pub open spec fn encode_bool(b: bool) -> Seq<u8> {
    if b {
        seq![0x1au8]
    } else {
        seq![0x19u8]
    }
}

pub open spec fn encode_null() -> Seq<u8> {
    seq![0x18u8]
}

/// A double, given by the bits of its binary64 form.
pub open spec fn encode_double(bits: u64) -> Seq<u8> {
    seq![0x1bu8] + le_bytes(bits as nat, 8)
}

/// A string given by its UTF-8 bytes: a short-string tag up to 126 bytes,
/// else the long-string tag and an 8-byte length.
pub open spec fn encode_str_bytes(b: Seq<u8>) -> Seq<u8> {
    if b.len() <= 126 {
        seq![(0x40 + b.len()) as u8] + b
    } else {
        seq![0xbfu8] + le_bytes(b.len(), 8) + b
    }
}

pub open spec fn encode_str(s: Seq<char>) -> Seq<u8> {
    encode_str_bytes(encode_utf8(s))
}


/// Every child encoding has the length of the first.
pub open spec fn same_len(items: Seq<Seq<u8>>) -> bool {
    forall|i: int| 0 <= i < items.len() ==> #[trigger] items[i].len() == items[0].len()
}

/// How far a width's tag lies from the tag of the 1-byte variant.
pub open spec fn width_code(w: nat) -> u8 {
    if w == 1 {
        0
    } else if w == 2 {
        1
    } else if w == 4 {
        2
    } else {
        3
    }
}

/// Width of an equal-length array: the narrowest that holds its total size.
pub open spec fn equal_width(payload: nat) -> nat {
    if 2 + payload < byte_limit(1) {
        1
    } else if 3 + payload < byte_limit(2) {
        2
    } else if 5 + payload < byte_limit(4) {
        4
    } else {
        8
    }
}

/// Total size of a container with a length field, a count field and an
/// index table, all `w` bytes wide.
pub open spec fn indexed_size(payload: nat, n: nat, w: nat) -> nat {
    1 + 2 * w + payload + n * w
}

/// The narrowest width that holds the total size and every offset of an
/// indexed container.
pub open spec fn indexed_width(payload: nat, n: nat) -> nat {
    if indexed_size(payload, n, 1) < byte_limit(1) {
        1
    } else if indexed_size(payload, n, 2) < byte_limit(2) {
        2
    } else if indexed_size(payload, n, 4) < byte_limit(4) {
        4
    } else {
        8
    }
}

/// Whether a container of these children can be framed at all: even the
/// widest frame must state its size in 8 bytes.
pub open spec fn frame_fits(items: Seq<Seq<u8>>) -> bool {
    indexed_size(items.flatten().len(), items.len(), 8) < byte_limit(8)
}

/// How many bytes come before the first child of an indexed container: the
/// type byte and the length field, and with narrow fields the count too.
/// With 8-byte fields the count comes last instead.
pub open spec fn header_len(w: nat) -> nat {
    if w == 8 {
        9
    } else {
        1 + 2 * w
    }
}

/// Where child `i` starts, counted from the container's type byte.
pub open spec fn child_offset(items: Seq<Seq<u8>>, w: nat, i: int) -> nat {
    header_len(w) + items.take(i).flatten().len()
}

/// An index table: each offset as a `w`-byte field.
pub open spec fn index_table(offsets: Seq<nat>, w: nat) -> Seq<u8> {
    offsets.map_values(|o: nat| le_bytes(o, w)).flatten()
}

/// An indexed container. With 8-byte fields the count comes last; with the
/// narrower ones it follows the length.
pub open spec fn indexed_frame(tag: u8, w: nat, n: nat, body: Seq<u8>, index: Seq<u8>) -> Seq<u8> {
    let total = indexed_size(body.len(), n, w);
    if w == 8 {
        seq![tag] + le_bytes(total, 8) + body + index + le_bytes(n, 8)
    } else {
        seq![tag] + le_bytes(total, w) + le_bytes(n, w) + body + index
    }
}

/// An array of the given child encodings: `0x01` when empty, an
/// equal-length array without index when all children have one length, and
/// otherwise an indexed array whose table lists the children in order.
pub open spec fn encode_array(items: Seq<Seq<u8>>) -> Seq<u8> {
    let body = items.flatten();
    let n = items.len();
    if n == 0 {
        seq![0x01u8]
    } else if same_len(items) {
        let w = equal_width(body.len());
        seq![(0x02 + width_code(w)) as u8] + le_bytes(1 + w + body.len(), w) + body
    } else {
        let w = indexed_width(body.len(), n);
        indexed_frame(
            (0x06 + width_code(w)) as u8,
            w,
            n,
            body,
            index_table(Seq::new(n, |i: int| child_offset(items, w, i)), w),
        )
    }
}

/// The entries of an object: each key's encoding followed by its value's.
pub open spec fn entries(keys: Seq<Seq<u8>>, values: Seq<Seq<u8>>) -> Seq<Seq<u8>> {
    Seq::new(keys.len(), |i: int| keys[i] + values[i])
}

/// An object: `0x0a` when empty, else an indexed object whose entries stand
/// in the order given and whose index table lists them in key order.
pub open spec fn encode_object(keys: Seq<Seq<u8>>, values: Seq<Seq<u8>>) -> Seq<u8> {
    let items = entries(keys, values);
    let body = items.flatten();
    let n = keys.len();
    if n == 0 {
        seq![0x0au8]
    } else {
        let w = indexed_width(body.len(), n);
        indexed_frame(
            (0x0b + width_code(w)) as u8,
            w,
            n,
            body,
            index_table(
                Seq::new(n, |p: int| child_offset(items, w, entry_at_rank(keys, p))),
                w,
            ),
        )
    }
}

proof fn lemma_flatten_prefix(items: Seq<Seq<u8>>, i: int)
    requires
        0 <= i < items.len(),
    ensures
        items.take(i + 1).flatten() == items.take(i).flatten() + items[i],
        items.take(i + 1).flatten().len() <= items.flatten().len(),
{
    assert(items.take(i + 1) =~= items.take(i).push(items[i]));
    items.take(i).lemma_flatten_push(items[i]);
    assert(items =~= items.take(i + 1) + items.skip(i + 1));
    lemma_flatten_concat(items.take(i + 1), items.skip(i + 1));
}

/// Writes the children of an indexed container and then its index table,
/// listing child `order[p]` at position `p`.
fn write_indexed(out: &mut Vec<u8>, base_tag: u8, items: &Vec<Vec<u8>>, order: &Vec<usize>)
    requires
        items@.len() > 0,
        base_tag <= 0x0b,
        frame_fits(byte_seqs(items@)),
        order@.len() == items@.len(),
        forall|p: int| 0 <= p < order@.len() ==> order@[p] < items@.len(),
    ensures
        ({
            let its = byte_seqs(items@);
            let n = its.len();
            let w = indexed_width(its.flatten().len(), n);
            final(out)@ == old(out)@ + indexed_frame(
                (base_tag + width_code(w)) as u8,
                w,
                n,
                its.flatten(),
                index_table(
                    Seq::new(n, |p: int| child_offset(its, w, order@[p] as int)),
                    w,
                ),
            )
        }),
{
    let ghost its = byte_seqs(items@);
    let ghost start = old(out)@;
    let n = items.len();
    proof {
        lemma_byte_limit_values();
    }
    let payload = payload_len(items);
    let n64 = n as u64;
    let w: usize = if 3 + payload + n64 < 0x100 {
        1
    } else if 5 + payload + 2 * n64 < 0x1_0000 {
        2
    } else if 9 + payload + 4 * n64 < 0x1_0000_0000 {
        4
    } else {
        8
    };
    let ghost gw = w as nat;
    assert(gw == indexed_width(its.flatten().len(), n as nat));
    let w64 = w as u64;
    assert(w64 * n64 <= 8 * n64) by (nonlinear_arith)
        requires
            w64 <= 8,
    ;
    let total: u64 = 1 + 2 * w64 + payload + n64 * w64;
    out.push(base_tag + (if w == 1 {
        0
    } else if w == 2 {
        1
    } else if w == 4 {
        2
    } else {
        3
    }));
    push_le(out, total, w);
    if w < 8 {
        push_le(out, n64, w);
    }
    let ghost header = out@;
    let mut offsets: Vec<u64> = Vec::new();
    let mut offset: u64 = if w == 8 {
        9
    } else {
        1 + 2 * w64
    };
    let mut k: usize = 0;
    while k < n
        invariant
            k <= n,
            n == items@.len(),
            its == byte_seqs(items@),
            frame_fits(its),
            byte_limit(8) == 0x1_0000_0000_0000_0000,
            w64 == w,
            w <= 8,
            offset as nat == child_offset(its, w as nat, k as int),
            offsets@.len() == k,
            forall|j: int| 0 <= j < k ==> offsets@[j] as nat == child_offset(its, w as nat, j),
            out@ == header + its.take(k as int).flatten(),
        decreases n - k,
    {
        proof {
            lemma_flatten_prefix(its, k as int);
        }
        offsets.push(offset);
        offset = offset + items[k].len() as u64;
        push_bytes(out, items[k].as_slice());
        k = k + 1;
    }
    assert(its.take(n as int) =~= its);
    let ghost body_end = out@;
    assert(body_end == header + its.flatten());
    let ghost offs = Seq::new(n as nat, |p: int| child_offset(its, w as nat, order@[p] as int));
    let mut p: usize = 0;
    while p < n
        invariant
            p <= n,
            n == items@.len(),
            order@.len() == n,
            forall|q: int| 0 <= q < n ==> order@[q] < n,
            offsets@.len() == n,
            forall|j: int| 0 <= j < n ==> offsets@[j] as nat == child_offset(its, w as nat, j),
            offs == Seq::new(n as nat, |q: int| child_offset(its, w as nat, order@[q] as int)),
            out@ == body_end + offs.take(p as int).map_values(|o: nat| le_bytes(o, w as nat)).flatten(),
        decreases n - p,
    {
        let ghost before = offs.take(p as int).map_values(|o: nat| le_bytes(o, w as nat));
        proof {
            assert(offs.take(p + 1).map_values(|o: nat| le_bytes(o, w as nat)) =~= before.push(
                le_bytes(offs[p as int], w as nat),
            ));
            before.lemma_flatten_push(le_bytes(offs[p as int], w as nat));
        }
        push_le(out, offsets[order[p]], w);
        p = p + 1;
    }
    assert(offs.take(n as int) =~= offs);
    if w == 8 {
        push_le(out, n64, 8);
    }
    let ghost tag = (base_tag + width_code(w as nat)) as u8;
    let ghost index = index_table(offs, w as nat);
    assert(out@ =~= start + indexed_frame(tag, w as nat, n as nat, its.flatten(), index));
}

/// The integers 0 to 9 encode as the single byte `0x30 + v`, signed or not.
pub proof fn lemma_small_ints_one_byte(v: u64)
    requires
        v < 10,
    ensures
        encode_uint(v) == seq![(0x30 + v) as u8],
        encode_int(v as i64) == seq![(0x30 + v) as u8],
        0x30 <= encode_uint(v)[0] <= 0x39,
{
}

/// A sequence of `n` pieces of `w` bytes each flattens to `n * w` bytes.
proof fn lemma_flatten_uniform(ss: Seq<Seq<u8>>, w: nat)
    requires
        forall|i: int| 0 <= i < ss.len() ==> #[trigger] ss[i].len() == w,
    ensures
        ss.flatten().len() == ss.len() * w,
    decreases ss.len(),
{
    if ss.len() > 0 {
        lemma_flatten_uniform(ss.drop_first(), w);
        assert(ss.len() * w == w + (ss.len() - 1) * w) by (nonlinear_arith);
    }
}

proof fn lemma_index_table_len(offsets: Seq<nat>, w: nat)
    ensures
        index_table(offsets, w).len() == offsets.len() * w,
{
    let ss = offsets.map_values(|o: nat| le_bytes(o, w));
    assert forall|i: int| 0 <= i < ss.len() implies #[trigger] ss[i].len() == w by {
        lemma_le_bytes_len(offsets[i], w);
    }
    lemma_flatten_uniform(ss, w);
}

/// The length field of an indexed frame reads back as the frame's length.
proof fn lemma_indexed_frame_length(tag: u8, w: nat, n: nat, body: Seq<u8>, offsets: Seq<nat>)
    requires
        w == 1 || w == 2 || w == 4 || w == 8,
        offsets.len() == n,
        indexed_size(body.len(), n, w) < byte_limit(w),
    ensures
        ({
            let e = indexed_frame(tag, w, n, body, index_table(offsets, w));
            &&& e[0] == tag
            &&& le_value(e.subrange(1, 1 + w as int)) == e.len()
            &&& e.len() == indexed_size(body.len(), n, w)
            &&& le_value(count_field(e, w)) == n
            &&& e.subrange(header_len(w) as int, (header_len(w) + body.len()) as int) == body
        }),
{
    let index = index_table(offsets, w);
    let total = indexed_size(body.len(), n, w);
    lemma_index_table_len(offsets, w);
    lemma_le_bytes_len(total, w);
    lemma_le_bytes_len(n, w);
    lemma_le_round_trip(total, w);
    lemma_le_round_trip(n, w);
    vstd::arithmetic::div_mod::lemma_small_mod(total, byte_limit(w));
    assert(n <= n * w) by (nonlinear_arith)
        requires
            w >= 1,
    ;
    vstd::arithmetic::div_mod::lemma_small_mod(n, byte_limit(w));
    let e = indexed_frame(tag, w, n, body, index);
    assert(e.subrange(1, 1 + w as int) =~= le_bytes(total, w));
    assert(n * w == w * n) by (nonlinear_arith);
    if w == 8 {
        assert(count_field(e, w) =~= le_bytes(n, 8));
    } else {
        assert(count_field(e, w) =~= le_bytes(n, w));
    }
    assert(e.subrange(header_len(w) as int, (header_len(w) + body.len()) as int) =~= body);
}

/// The count field of an indexed frame with `w`-byte fields: after the length
/// field, or with 8-byte fields the last 8 bytes.
pub open spec fn count_field(e: Seq<u8>, w: nat) -> Seq<u8> {
    if w == 8 {
        e.subrange(e.len() - 8, e.len() as int)
    } else {
        e.subrange(1 + w as int, 1 + 2 * w as int)
    }
}

/// In a flattened list, child `i` stands right after the children before it.
proof fn lemma_flatten_child(items: Seq<Seq<u8>>, i: int)
    requires
        0 <= i < items.len(),
    ensures
        items.flatten().subrange(
            items.take(i).flatten().len() as int,
            (items.take(i).flatten().len() + items[i].len()) as int,
        ) == items[i],
{
    lemma_flatten_prefix(items, i);
    assert(items =~= items.take(i + 1) + items.skip(i + 1));
    lemma_flatten_concat(items.take(i + 1), items.skip(i + 1));
    let pre = items.take(i).flatten();
    assert(items.flatten().subrange(pre.len() as int, (pre.len() + items[i].len()) as int) =~= items[i]);
}

/// Every offset in an array's index table points at the first byte of its
/// element, and the count field holds the number of elements.
pub proof fn lemma_array_offsets(items: Seq<Seq<u8>>)
    requires
        items.len() > 0,
        frame_fits(items),
        !same_len(items),
    ensures
        ({
            let e = encode_array(items);
            let w = indexed_width(items.flatten().len(), items.len());
            &&& le_value(count_field(e, w)) == items.len()
            &&& forall|i: int|
                0 <= i < items.len() ==> e.subrange(
                    child_offset(items, w, i) as int,
                    (child_offset(items, w, i) + items[i].len()) as int,
                ) == #[trigger] items[i]
        }),
{
    lemma_byte_limit_values();
    let body = items.flatten();
    let n = items.len();
    let w = indexed_width(body.len(), n);
    lemma_indexed_frame_length(
        (0x06 + width_code(w)) as u8,
        w,
        n,
        body,
        Seq::new(n, |i: int| child_offset(items, w, i)),
    );
    let e = encode_array(items);
    assert forall|i: int| 0 <= i < n implies e.subrange(
        child_offset(items, w, i) as int,
        (child_offset(items, w, i) + items[i].len()) as int,
    ) == #[trigger] items[i] by {
        lemma_flatten_child(items, i);
        lemma_flatten_prefix(items, i);
        let start = items.take(i).flatten().len();
        let h = header_len(w);
        assert(e.subrange((h + start) as int, (h + start + items[i].len()) as int) =~= body.subrange(
            start as int,
            (start + items[i].len()) as int,
        ));
    }
}

/// Every offset in an object's index table points at the first byte of the
/// entry it lists, key first, and the count field holds the number of
/// entries.
pub proof fn lemma_object_offsets(keys: Seq<Seq<u8>>, values: Seq<Seq<u8>>)
    requires
        keys.len() > 0,
        keys.len() == values.len(),
        frame_fits(entries(keys, values)),
    ensures
        ({
            let e = encode_object(keys, values);
            let its = entries(keys, values);
            let w = indexed_width(its.flatten().len(), keys.len());
            &&& le_value(count_field(e, w)) == keys.len()
            &&& forall|i: int|
                0 <= i < keys.len() ==> e.subrange(
                    child_offset(its, w, i) as int,
                    (child_offset(its, w, i) + keys[i].len() + values[i].len()) as int,
                ) == keys[i] + values[i]
        }),
{
    lemma_byte_limit_values();
    let its = entries(keys, values);
    let body = its.flatten();
    let n = keys.len();
    let w = indexed_width(body.len(), n);
    lemma_indexed_frame_length(
        (0x0b + width_code(w)) as u8,
        w,
        n,
        body,
        Seq::new(n, |p: int| child_offset(its, w, entry_at_rank(keys, p))),
    );
    let e = encode_object(keys, values);
    assert forall|i: int| 0 <= i < n implies e.subrange(
        child_offset(its, w, i) as int,
        (child_offset(its, w, i) + keys[i].len() + values[i].len()) as int,
    ) == keys[i] + values[i] by {
        lemma_flatten_child(its, i);
        lemma_flatten_prefix(its, i);
        let start = its.take(i).flatten().len();
        let h = header_len(w);
        assert(its[i] == keys[i] + values[i]);
        assert(e.subrange((h + start) as int, (h + start + its[i].len()) as int) =~= body.subrange(
            start as int,
            (start + its[i].len()) as int,
        ));
    }
}

/// An array's length field states the number of bytes written for it, from
/// its type byte to the end of its index table or count.
pub proof fn lemma_array_declared_length(items: Seq<Seq<u8>>)
    requires
        items.len() > 0,
        frame_fits(items),
    ensures
        ({
            let a = encode_array(items);
            let w = if 0x02 <= a[0] <= 0x05 {
                width_from_tag(a[0], 0x02)
            } else {
                width_from_tag(a[0], 0x06)
            };
            le_value(a.subrange(1, 1 + w as int)) == a.len()
        }),
{
    lemma_byte_limit_values();
    let body = items.flatten();
    let n = items.len();
    if same_len(items) {
        let w = equal_width(body.len());
        let total = 1 + w + body.len();
        lemma_le_bytes_len(total, w);
        lemma_le_round_trip(total, w);
        vstd::arithmetic::div_mod::lemma_small_mod(total, byte_limit(w));
        let a = encode_array(items);
        assert(a.subrange(1, 1 + w as int) =~= le_bytes(total, w));
    } else {
        let w = indexed_width(body.len(), n);
        lemma_indexed_frame_length(
            (0x06 + width_code(w)) as u8,
            w,
            n,
            body,
            Seq::new(n, |i: int| child_offset(items, w, i)),
        );
    }
}

/// An object's length field states the number of bytes written for it, from
/// its type byte to the end of its index table or count.
pub proof fn lemma_object_declared_length(keys: Seq<Seq<u8>>, values: Seq<Seq<u8>>)
    requires
        keys.len() > 0,
        keys.len() == values.len(),
        frame_fits(entries(keys, values)),
    ensures
        ({
            let o = encode_object(keys, values);
            le_value(o.subrange(1, 1 + width_from_tag(o[0], 0x0b) as int)) == o.len()
        }),
{
    lemma_byte_limit_values();
    let its = entries(keys, values);
    let w = indexed_width(its.flatten().len(), keys.len());
    lemma_indexed_frame_length(
        (0x0b + width_code(w)) as u8,
        w,
        keys.len(),
        its.flatten(),
        Seq::new(keys.len(), |p: int| child_offset(its, w, entry_at_rank(keys, p))),
    );
}

/// The width that a container tag states, counted from the tag `base` of
/// its 1-byte variant.
pub open spec fn width_from_tag(tag: u8, base: u8) -> nat {
    if tag == base {
        1
    } else if tag == base + 1 {
        2
    } else if tag == base + 2 {
        4
    } else {
        8
    }
}

/// An object's index table lists every entry exactly once, in lexicographic
/// order of the key bytes; the entries themselves stay in the order given.
pub proof fn lemma_object_index_order(keys: Seq<Seq<u8>>)
    ensures
        forall|p: int, q: int|
            0 <= p < q < keys.len() ==> lex_le(
                keys[entry_at_rank(keys, p)],
                keys[entry_at_rank(keys, q)],
            ),
        forall|p: int| 0 <= p < keys.len() ==> 0 <= #[trigger] entry_at_rank(keys, p) < keys.len(),
        forall|p: int, q: int|
            0 <= p < keys.len() && 0 <= q < keys.len() && p != q ==> #[trigger] entry_at_rank(keys, p)
                != #[trigger] entry_at_rank(keys, q),
{
    lemma_rank_permutation(keys);
    assert forall|p: int, q: int| 0 <= p < q < keys.len() implies lex_le(
        keys[entry_at_rank(keys, p)],
        keys[entry_at_rank(keys, q)],
    ) by {
        let (i, j) = (entry_at_rank(keys, p), entry_at_rank(keys, q));
        assert(rank(keys, i) < rank(keys, j));
        assert(key_before(keys, i, j));
    }
}

/// Children of one length give an array without an index table; children
/// of different lengths give one with a table of one offset per child.
pub proof fn lemma_array_index_presence(items: Seq<Seq<u8>>)
    requires
        items.len() > 0,
        frame_fits(items),
    ensures
        same_len(items) ==> 0x02 <= encode_array(items)[0] <= 0x05 && encode_array(items).len()
            == 1 + equal_width(items.flatten().len()) + items.flatten().len(),
        !same_len(items) ==> ({
            let w = indexed_width(items.flatten().len(), items.len());
            0x06 <= encode_array(items)[0] <= 0x09 && encode_array(items).len() == indexed_size(
                items.flatten().len(),
                items.len(),
                w,
            )
        }),
{
    lemma_byte_limit_values();
    let body = items.flatten();
    if same_len(items) {
        lemma_le_bytes_len(1 + equal_width(body.len()) + body.len(), equal_width(body.len()));
    } else {
        let w = indexed_width(body.len(), items.len());
        lemma_indexed_frame_length(
            (0x06 + width_code(w)) as u8,
            w,
            items.len(),
            body,
            Seq::new(items.len(), |i: int| child_offset(items, w, i)),
        );
    }
}

/// Writes values one after another into a growing buffer.
pub struct Serializer {
    output: Vec<u8>,
}

impl Serializer {
    /// The bytes written so far.
    pub closed spec fn view(&self) -> Seq<u8> {
        self.output@
    }

    /// A serializer that has written nothing yet.
    pub fn new() -> (s: Self)
        ensures
            s@ == Seq::<u8>::empty(),
    {
        Serializer { output: Vec::new() }
    }

    /// The bytes written.
    pub fn into_bytes(self) -> (r: Vec<u8>)
        ensures
            r@ == self@,
    {
        self.output
    }

    /// Writes an unsigned integer in its canonical form.
    pub fn serialize_unsigned_int(&mut self, v: u64)
        ensures
            final(self)@ == old(self)@ + encode_uint(v),
    {
        if v < 10 {
            self.output.push(0x30 + v as u8);
        } else {
            let w: usize = if v < 0x100 {
                1
            } else if v < 0x1_0000 {
                2
            } else if v < 0x100_0000 {
                3
            } else if v < 0x1_0000_0000 {
                4
            } else if v < 0x100_0000_0000 {
                5
            } else if v < 0x1_0000_0000_0000 {
                6
            } else if v < 0x100_0000_0000_0000 {
                7
            } else {
                8
            };
            self.output.push(0x27 + w as u8);
            push_le(&mut self.output, v, w);
        }
        assert(self.output@ =~= old(self)@ + encode_uint(v));
    }

    fn serialize_negative_int(&mut self, v: i64)
        requires
            v < 0,
        ensures
            final(self)@ == old(self)@ + encode_int(v),
    {
        proof {
            lemma_byte_limit_values();
        }
        if v >= -6 {
            self.output.push((v + 0x40) as u8);
        } else {
            let w: usize = if v >= -0x80 {
                1
            } else if v >= -0x8000 {
                2
            } else if v >= -0x80_0000 {
                3
            } else if v >= -0x8000_0000 {
                4
            } else if v >= -0x80_0000_0000 {
                5
            } else if v >= -0x8000_0000_0000 {
                6
            } else if v >= -0x80_0000_0000_0000 {
                7
            } else {
                8
            };
            // the two's complement of `v` in `w` bytes, as an unsigned number
            let u: u64 = if w == 1 {
                (v + 0x100) as u64
            } else if w == 2 {
                (v + 0x1_0000) as u64
            } else if w == 3 {
                (v + 0x100_0000) as u64
            } else if w == 4 {
                (v + 0x1_0000_0000) as u64
            } else if w == 5 {
                (v + 0x100_0000_0000) as u64
            } else if w == 6 {
                (v + 0x1_0000_0000_0000) as u64
            } else if w == 7 {
                (v + 0x100_0000_0000_0000) as u64
            } else {
                (v - i64::MIN) as u64 + 0x8000_0000_0000_0000
            };
            assert(w == neg_width(v as int));
            assert(u == v + byte_limit(w as nat));
            self.output.push(0x1f + w as u8);
            push_le(&mut self.output, u, w);
        }
        assert(self.output@ =~= old(self)@ + encode_int(v));
    }

    /// Writes a signed integer in its canonical form.
    pub fn serialize_i64(&mut self, v: i64)
        ensures
            final(self)@ == old(self)@ + encode_int(v),
    {
        if v >= 0 {
            self.serialize_unsigned_int(v as u64);
        } else {
            self.serialize_negative_int(v);
        }
    }

    /// Writes an unsigned integer in its canonical form.
    pub fn serialize_u64(&mut self, v: u64)
        ensures
            final(self)@ == old(self)@ + encode_uint(v),
    {
        self.serialize_unsigned_int(v);
    }

    /// Writes a boolean.
    pub fn serialize_bool(&mut self, v: bool)
        ensures
            final(self)@ == old(self)@ + encode_bool(v),
    {
        self.output.push(if v { 0x1a } else { 0x19 });
        assert(self.output@ =~= old(self)@ + encode_bool(v));
    }

    /// Writes null.
    pub fn serialize_unit(&mut self)
        ensures
            final(self)@ == old(self)@ + encode_null(),
    {
        self.output.push(0x18);
        assert(self.output@ =~= old(self)@ + encode_null());
    }

    /// Writes the double whose binary64 bits are `bits`.
    pub fn serialize_double(&mut self, bits: u64)
        ensures
            final(self)@ == old(self)@ + encode_double(bits),
    {
        self.output.push(0x1b);
        push_le(&mut self.output, bits, 8);
        assert(self.output@ =~= old(self)@ + encode_double(bits));
    }

    /// Writes a string: its UTF-8 bytes behind a short or long string header.
    pub fn serialize_str(&mut self, v: &str)
        ensures
            final(self)@ == old(self)@ + encode_str(v@),
    {
        let b = v.as_bytes();
        let len = b.len();
        if len <= 126 {
            self.output.push(0x40 + len as u8);
        } else {
            self.output.push(0xbf);
            push_le(&mut self.output, len as u64, 8);
        }
        push_bytes(&mut self.output, b);
        assert(self.output@ =~= old(self)@ + encode_str(v@));
    }
}

/// Collects the encodings of an array's elements; `end_array` frames them.
pub struct ArraySerializer {
    items: Vec<Vec<u8>>,
}

impl ArraySerializer {
    /// The element encodings collected so far.
    pub closed spec fn view(&self) -> Seq<Seq<u8>> {
        byte_seqs(self.items@)
    }

    /// An empty builder.
    pub fn new() -> (a: Self)
        ensures
            a@ == Seq::<Seq<u8>>::empty(),
    {
        let a = ArraySerializer { items: Vec::new() };
        assert(a@ =~= Seq::<Seq<u8>>::empty());
        a
    }

    /// Adds, as the next element, everything that `element` has written.
    pub fn serialize_element(&mut self, element: Serializer)
        ensures
            final(self)@ == old(self)@.push(element@),
    {
        self.items.push(element.into_bytes());
        assert(self@ =~= old(self)@.push(element@));
    }

    /// Writes the array to `out`.
    pub fn end_array(self, out: &mut Serializer)
        requires
            frame_fits(self@),
        ensures
            final(out)@ == old(out)@ + encode_array(self@),
    {
        let ghost its = self@;
        let ghost start = old(out)@;
        let n = self.items.len();
        if n == 0 {
            out.output.push(0x01);
            assert(out@ =~= start + encode_array(its));
            return;
        }
        let first_len = self.items[0].len();
        let mut same = true;
        let mut j: usize = 1;
        while j < n
            invariant
                1 <= j <= n,
                n == its.len(),
                its == byte_seqs(self.items@),
                first_len == its[0].len(),
                same == (forall|k: int| 0 <= k < j ==> #[trigger] its[k].len() == its[0].len()),
            decreases n - j,
        {
            assert(its[j as int] == self.items@[j as int]@);
            if self.items[j].len() != first_len {
                same = false;
            }
            j = j + 1;
        }
        if same {
            let payload = payload_len(&self.items);
            proof {
                lemma_byte_limit_values();
            }
            let w: usize = if 2 + payload < 0x100 {
                1
            } else if 3 + payload < 0x1_0000 {
                2
            } else if 5 + payload < 0x1_0000_0000 {
                4
            } else {
                8
            };
            out.output.push(0x02 + (if w == 1 {
                0
            } else if w == 2 {
                1
            } else if w == 4 {
                2
            } else {
                3
            }));
            push_le(&mut out.output, 1 + w as u64 + payload, w);
            let ghost header = out.output@;
            let mut k: usize = 0;
            while k < n
                invariant
                    k <= n,
                    n == its.len(),
                    its == byte_seqs(self.items@),
                    out.output@ == header + its.take(k as int).flatten(),
                decreases n - k,
            {
                proof {
                    lemma_flatten_prefix(its, k as int);
                }
                push_bytes(&mut out.output, self.items[k].as_slice());
                k = k + 1;
            }
            assert(its.take(n as int) =~= its);
            assert(out@ =~= start + encode_array(its));
        } else {
            let mut order: Vec<usize> = Vec::new();
            let mut k: usize = 0;
            while k < n
                invariant
                    k <= n,
                    order@.len() == k,
                    forall|q: int| 0 <= q < k ==> order@[q] == q,
                decreases n - k,
            {
                order.push(k);
                k = k + 1;
            }
            write_indexed(&mut out.output, 0x06, &self.items, &order);
            let ghost w = indexed_width(its.flatten().len(), n as nat);
            assert(Seq::new(n as nat, |p: int| child_offset(its, w, order@[p] as int)) =~= Seq::new(
                n as nat,
                |i: int| child_offset(its, w, i),
            ));
            assert(out@ =~= start + encode_array(its));
        }
    }
}

/// Collects an object's entries in the order given; `end_map` frames them.
pub struct MapSerializer {
    entries: Vec<(Vec<u8>, Vec<u8>)>,
}

impl MapSerializer {
    /// The key encodings collected so far.
    pub closed spec fn keys(&self) -> Seq<Seq<u8>> {
        self.entries@.map_values(|e: (Vec<u8>, Vec<u8>)| e.0@)
    }

    /// The value encodings collected so far.
    pub closed spec fn values(&self) -> Seq<Seq<u8>> {
        self.entries@.map_values(|e: (Vec<u8>, Vec<u8>)| e.1@)
    }

    /// An empty builder.
    pub fn new() -> (m: Self)
        ensures
            m.keys() == Seq::<Seq<u8>>::empty(),
            m.values() == Seq::<Seq<u8>>::empty(),
    {
        let m = MapSerializer { entries: Vec::new() };
        assert(m.keys() =~= Seq::<Seq<u8>>::empty());
        assert(m.values() =~= Seq::<Seq<u8>>::empty());
        m
    }

    /// Adds an entry: the string `key`, and as its value everything that
    /// `value` has written.
    pub fn serialize_entry(&mut self, key: &str, value: Serializer)
        ensures
            final(self).keys() == old(self).keys().push(encode_str(key@)),
            final(self).values() == old(self).values().push(value@),
    {
        let mut k = Serializer::new();
        k.serialize_str(key);
        self.entries.push((k.into_bytes(), value.into_bytes()));
        assert(self.keys() =~= old(self).keys().push(encode_str(key@)));
        assert(self.values() =~= old(self).values().push(value@));
    }

    /// Writes the object to `out`.
    pub fn end_map(self, out: &mut Serializer)
        requires
            frame_fits(entries(self.keys(), self.values())),
        ensures
            final(out)@ == old(out)@ + encode_object(self.keys(), self.values()),
    {
        let ghost ks = self.keys();
        let ghost vs = self.values();
        let ghost start = old(out)@;
        let n = self.entries.len();
        if n == 0 {
            out.output.push(0x0a);
            assert(out@ =~= start + encode_object(ks, vs));
            return;
        }
        let mut keys: Vec<Vec<u8>> = Vec::new();
        let mut items: Vec<Vec<u8>> = Vec::new();
        let mut i: usize = 0;
        while i < n
            invariant
                i <= n,
                n == self.entries@.len(),
                ks == self.keys(),
                vs == self.values(),
                ks.len() == n,
                vs.len() == n,
                keys@.len() == i,
                items@.len() == i,
                byte_seqs(keys@) == ks.take(i as int),
                byte_seqs(items@) == entries(ks, vs).take(i as int),
            decreases n - i,
        {
            let mut key: Vec<u8> = Vec::new();
            push_bytes(&mut key, self.entries[i].0.as_slice());
            let mut item: Vec<u8> = Vec::new();
            push_bytes(&mut item, self.entries[i].0.as_slice());
            push_bytes(&mut item, self.entries[i].1.as_slice());
            assert(key@ =~= ks[i as int]);
            assert(item@ =~= entries(ks, vs)[i as int]);
            keys.push(key);
            items.push(item);
            assert(byte_seqs(keys@) =~= ks.take(i + 1));
            assert(byte_seqs(items@) =~= entries(ks, vs).take(i + 1));
            i = i + 1;
        }
        assert(ks.take(n as int) =~= ks);
        assert(entries(ks, vs).take(n as int) =~= entries(ks, vs));
        let order = sorted_order(&keys);
        proof {
            lemma_rank_permutation(ks);
        }
        write_indexed(&mut out.output, 0x0b, &items, &order);
        let ghost its = entries(ks, vs);
        let ghost w = indexed_width(its.flatten().len(), n as nat);
        assert(Seq::new(n as nat, |p: int| child_offset(its, w, order@[p] as int)) =~= Seq::new(
            n as nat,
            |p: int| child_offset(its, w, entry_at_rank(ks, p)),
        ));
        assert(out@ =~= start + encode_object(ks, vs));
    }
}

/// The total length of all the byte strings in `items`.
fn payload_len(items: &Vec<Vec<u8>>) -> (r: u64)
    requires
        frame_fits(byte_seqs(items@)),
    ensures
        r as nat == byte_seqs(items@).flatten().len(),
{
    let ghost its = byte_seqs(items@);
    let n = items.len();
    proof {
        lemma_byte_limit_values();
    }
    let mut payload: u64 = 0;
    let mut i: usize = 0;
    while i < n
        invariant
            i <= n,
            n == items@.len(),
            its == byte_seqs(items@),
            frame_fits(its),
            byte_limit(8) == 0x1_0000_0000_0000_0000,
            payload as nat == its.take(i as int).flatten().len(),
        decreases n - i,
    {
        proof {
            lemma_flatten_prefix(its, i as int);
        }
        payload = payload + items[i].len() as u64;
        i = i + 1;
    }
    assert(its.take(n as int) =~= its);
    payload
}

/// The canonical encoding of a value; containers frame the encodings of
/// their children.
pub open spec fn encode(v: ValueView) -> Seq<u8>
    decreases v, 1nat,
{
    match v {
        ValueView::Null => encode_null(),
        ValueView::Bool(b) => encode_bool(b),
        ValueView::Int(i) => encode_int(i),
        ValueView::UInt(u) => encode_uint(u),
        ValueView::Double(d) => encode_double(d),
        ValueView::Str(s) => encode_str(s),
        ValueView::Array(items) => encode_array(encode_all(items)),
        ValueView::Object(es) => encode_object(key_encodings(es), encode_values(es)),
    }
}

/// The encodings of a list of values.
pub open spec fn encode_all(items: Seq<ValueView>) -> Seq<Seq<u8>>
    decreases items, 0nat,
{
    Seq::new(
        items.len(),
        |i: int|
            if 0 <= i < items.len() {
                encode(items[i])
            } else {
                seq![]
            },
    )
}

/// The encodings of an object's keys.
pub open spec fn key_encodings(es: Seq<(Seq<char>, ValueView)>) -> Seq<Seq<u8>> {
    Seq::new(es.len(), |i: int| encode_str(es[i].0))
}

/// The encodings of an object's values.
pub open spec fn encode_values(es: Seq<(Seq<char>, ValueView)>) -> Seq<Seq<u8>>
    decreases es, 0nat,
{
    Seq::new(
        es.len(),
        |i: int|
            if 0 <= i < es.len() {
                encode(es[i].1)
            } else {
                seq![]
            },
    )
}

/// Every container in the value can state its size in 8 bytes.
pub open spec fn encodable(v: ValueView) -> bool
    decreases v,
{
    match v {
        ValueView::Array(items) => frame_fits(encode_all(items)) && forall|i: int|
            0 <= i < items.len() ==> encodable(#[trigger] items[i]),
        ValueView::Object(es) => frame_fits(entries(key_encodings(es), encode_values(es)))
            && forall|i: int| 0 <= i < es.len() ==> encodable(#[trigger] es[i].1),
        _ => true,
    }
}

impl Serializer {
    /// Writes a whole value.
    pub fn serialize_value(&mut self, v: &Value)
        requires
            encodable(v@),
        ensures
            final(self)@ == old(self)@ + encode(v@),
        decreases v, 1nat,
    {
        proof {
            lemma_value_views(*v);
        }
        match v {
            Value::Null => self.serialize_unit(),
            Value::Bool(b) => self.serialize_bool(*b),
            Value::Int(i) => self.serialize_i64(*i),
            Value::UInt(u) => self.serialize_u64(*u),
            Value::Double(d) => self.serialize_double(*d),
            Value::String(text) => self.serialize_str(text.as_str()),
            Value::Array(items) => {
                proof {
                    assert(decreases_to!(*v => v->Array_0));
                }
                self.serialize_array(items);
            },
            Value::Object(es) => {
                proof {
                    assert(decreases_to!(*v => v->Object_0));
                }
                self.serialize_object(es);
            },
        }
    }

    fn serialize_array(&mut self, items: &Vec<Value>)
        requires
            encodable(ValueView::Array(views(items@))),
        ensures
            final(self)@ == old(self)@ + encode(ValueView::Array(views(items@))),
        decreases items, 0nat,
    {
        let ghost its = views(items@);
        let ghost children = encode_all(its);
        let mut a = ArraySerializer::new();
        let n = items.len();
        let mut i: usize = 0;
        while i < n
            invariant
                i <= n,
                n == items@.len(),
                its == views(items@),
                children == encode_all(its),
                a@ == children.take(i as int),
                forall|j: int| 0 <= j < n ==> encodable(#[trigger] its[j]),
            decreases n - i,
        {
            let mut child = Serializer::new();
            proof {
                assert(decreases_to!(*items => items[i as int]));
                assert(encodable(its[i as int]));
            }
            child.serialize_value(&items[i]);
            assert(child@ =~= children[i as int]);
            a.serialize_element(child);
            assert(a@ =~= children.take(i + 1));
            i = i + 1;
        }
        assert(children.take(n as int) =~= children);
        a.end_array(self);
    }

    fn serialize_object(&mut self, es: &Vec<(String, Value)>)
        requires
            encodable(ValueView::Object(entry_views(es@))),
        ensures
            final(self)@ == old(self)@ + encode(ValueView::Object(entry_views(es@))),
        decreases es, 0nat,
    {
        let ghost ves = entry_views(es@);
        let ghost keys = key_encodings(ves);
        let ghost vals = encode_values(ves);
        let mut m = MapSerializer::new();
        let n = es.len();
        let mut i: usize = 0;
        while i < n
            invariant
                i <= n,
                n == es@.len(),
                ves == entry_views(es@),
                keys == key_encodings(ves),
                vals == encode_values(ves),
                m.keys() == keys.take(i as int),
                m.values() == vals.take(i as int),
                forall|j: int| 0 <= j < n ==> encodable(#[trigger] ves[j].1),
            decreases n - i,
        {
            let mut child = Serializer::new();
            proof {
                assert(decreases_to!(*es => es[i as int]));
                assert(decreases_to!(es[i as int] => es[i as int].1));
                assert(encodable(ves[i as int].1));
            }
            child.serialize_value(&es[i].1);
            assert(child@ =~= vals[i as int]);
            m.serialize_entry(es[i].0.as_str(), child);
            assert(m.keys() =~= keys.take(i + 1));
            assert(m.values() =~= vals.take(i + 1));
            i = i + 1;
        }
        assert(keys.take(n as int) =~= keys);
        assert(vals.take(n as int) =~= vals);
        m.end_map(self);
    }
}

/// The length of a string's encoding.
proof fn lemma_encode_str_len(s: Seq<char>)
    ensures
        encode_str(s).len() == if encode_utf8(s).len() <= 126 {
            1 + encode_utf8(s).len()
        } else {
            9 + encode_utf8(s).len()
        },
{
    lemma_le_bytes_len(encode_utf8(s).len(), 8);
}

/// The length of an object's encoding.
proof fn lemma_object_len(keys: Seq<Seq<u8>>, values: Seq<Seq<u8>>)
    requires
        keys.len() > 0,
        frame_fits(entries(keys, values)),
    ensures
        encode_object(keys, values).len() == indexed_size(
            entries(keys, values).flatten().len(),
            keys.len(),
            indexed_width(entries(keys, values).flatten().len(), keys.len()),
        ),
{
    lemma_byte_limit_values();
    let its = entries(keys, values);
    let w = indexed_width(its.flatten().len(), keys.len());
    lemma_indexed_frame_length(
        (0x0b + width_code(w)) as u8,
        w,
        keys.len(),
        its.flatten(),
        Seq::new(keys.len(), |p: int| child_offset(its, w, entry_at_rank(keys, p))),
    );
}

/// The length of an encoded scalar, which is at most 9 bytes, or of an
/// encoded string.
fn scalar_len(v: &Value) -> (r: Option<u64>)
    requires
        !(v@ is Array),
        !(v@ is Object),
    ensures
        match r {
            Some(n) => n == encode(v@).len(),
            None => encode(v@).len() >= byte_limit(8),
        },
{
    proof {
        lemma_byte_limit_values();
    }
    match v {
        Value::String(text) => {
            assert(encode(v@) == encode_str(text@));
            str_encoded_len(text.as_str())
        },
        _ => {
            let mut s = Serializer::new();
            s.serialize_value(v);
            Some(s.output.len() as u64)
        },
    }
}

/// The length of a string's encoding, when it fits in 64 bits.
fn str_encoded_len(text: &str) -> (r: Option<u64>)
    ensures
        match r {
            Some(n) => n == encode_str(text@).len(),
            None => encode_str(text@).len() >= byte_limit(8),
        },
{
    proof {
        lemma_byte_limit_values();
        lemma_encode_str_len(text@);
    }
    let n = text.as_bytes().len() as u64;
    if n <= 126 {
        Some(1 + n)
    } else if n > u64::MAX - 9 {
        None
    } else {
        Some(9 + n)
    }
}

/// An array cannot be encoded when one of its elements cannot, or when its
/// first elements already need 2^64 bytes.
proof fn lemma_array_not_encodable(its: Seq<ValueView>, i: int)
    requires
        0 <= i < its.len(),
        !encodable(its[i]) || encode_all(its).take(i + 1).flatten().len() >= byte_limit(8),
    ensures
        !encodable(ValueView::Array(its)),
{
    lemma_flatten_prefix(encode_all(its), i);
}

/// The length of an array's encoding, when every container in it can state
/// its size.
fn array_len(items: &Vec<Value>) -> (r: Option<u64>)
    ensures
        match r {
            Some(n) => encodable(ValueView::Array(views(items@))) && n == encode(
                ValueView::Array(views(items@)),
            ).len(),
            None => !encodable(ValueView::Array(views(items@))),
        },
    decreases items, 0nat,
{
    let ghost its = views(items@);
    let ghost children = encode_all(its);
    proof {
        lemma_byte_limit_values();
    }
    let n = items.len();
    let mut payload: u64 = 0;
    let mut lens: Vec<u64> = Vec::new();
    let mut i: usize = 0;
    while i < n
        invariant
            i <= n,
            n == items@.len(),
            its == views(items@),
            children == encode_all(its),
            children.len() == n,
            byte_limit(8) == 0x1_0000_0000_0000_0000,
            payload as nat == children.take(i as int).flatten().len(),
            lens@.len() == i,
            forall|j: int| 0 <= j < i ==> lens@[j] == children[j].len(),
            forall|j: int| 0 <= j < i ==> encodable(#[trigger] its[j]),
        decreases n - i,
    {
        proof {
            assert(decreases_to!(*items => items[i as int]));
            lemma_flatten_prefix(children, i as int);
        }
        assert(its[i as int] == items@[i as int]@);
        let c = match encoded_len(&items[i]) {
            Some(c) => c,
            None => {
                proof {
                    lemma_array_not_encodable(its, i as int);
                }
                return None;
            },
        };
        if payload > u64::MAX - c {
            proof {
                lemma_array_not_encodable(its, i as int);
            }
            return None;
        }
        payload = payload + c;
        lens.push(c);
        i = i + 1;
    }
    let mut same = true;
    let mut k: usize = 1;
    while k < n
        invariant
            1 <= k <= n || n == 0,
            n == children.len(),
            lens@.len() == n,
            forall|j: int| 0 <= j < n ==> lens@[j] == children[j].len(),
            same <==> forall|j: int| 0 <= j < k ==> #[trigger] lens@[j] == lens@[0],
        decreases n - k,
    {
        if lens[k] != lens[0] {
            same = false;
        }
        k = k + 1;
    }
    assert(children.take(n as int) =~= children);
    if payload as u128 + 17 + 8 * (n as u128) >= 0x1_0000_0000_0000_0000 {
        return None;
    }
    if n == 0 {
        return Some(1);
    }
    proof {
        lemma_array_index_presence(children);
    }
    let n64 = n as u64;
    if same {
        assert(same_len(children)) by {
            assert forall|j: int| 0 <= j < children.len() implies #[trigger] children[j].len()
                == children[0].len() by {
                assert(lens@[j] == lens@[0]);
            }
        }
        if 2 + payload < 0x100 {
            Some(2 + payload)
        } else if 3 + payload < 0x1_0000 {
            Some(3 + payload)
        } else if 5 + payload < 0x1_0000_0000 {
            Some(5 + payload)
        } else {
            Some(9 + payload)
        }
    } else {
        assert(!same_len(children)) by {
            let j = choose|j: int| 0 <= j < n && #[trigger] lens@[j] != lens@[0];
            assert(children[j].len() != children[0].len());
        }
        if 3 + payload + n64 < 0x100 {
            Some(3 + payload + n64)
        } else if 5 + payload + 2 * n64 < 0x1_0000 {
            Some(5 + payload + 2 * n64)
        } else if 9 + payload + 4 * n64 < 0x1_0000_0000 {
            Some(9 + payload + 4 * n64)
        } else {
            Some(17 + payload + 8 * n64)
        }
    }
}

/// The length of an object's encoding, when every container in it can state
/// its size.
fn object_len(es: &Vec<(String, Value)>) -> (r: Option<u64>)
    ensures
        match r {
            Some(n) => encodable(ValueView::Object(entry_views(es@))) && n == encode(
                ValueView::Object(entry_views(es@)),
            ).len(),
            None => !encodable(ValueView::Object(entry_views(es@))),
        },
    decreases es, 0nat,
{
    let ghost ves = entry_views(es@);
    let ghost keys = key_encodings(ves);
    let ghost vals = encode_values(ves);
    let ghost ents = entries(keys, vals);
    proof {
        lemma_byte_limit_values();
    }
    let n = es.len();
    let mut payload: u64 = 0;
    let mut i: usize = 0;
    while i < n
        invariant
            i <= n,
            n == es@.len(),
            ves == entry_views(es@),
            keys == key_encodings(ves),
            vals == encode_values(ves),
            ents == entries(keys, vals),
            ents.len() == n,
            byte_limit(8) == 0x1_0000_0000_0000_0000,
            payload as nat == ents.take(i as int).flatten().len(),
            forall|j: int| 0 <= j < i ==> encodable(#[trigger] ves[j].1),
        decreases n - i,
    {
        proof {
            assert(decreases_to!(*es => es[i as int]));
            assert(decreases_to!(es[i as int] => es[i as int].1));
            lemma_flatten_prefix(ents, i as int);
        }
        let key_len = match str_encoded_len(es[i].0.as_str()) {
            Some(k) => k,
            None => {
                return None;
            },
        };
        assert(ves[i as int].0 == es@[i as int].0@);
        assert(key_len == keys[i as int].len());
        let value_len = match encoded_len(&es[i].1) {
            Some(c) => c,
            None => {
                return None;
            },
        };
        if payload > u64::MAX - key_len || payload + key_len > u64::MAX - value_len {
            return None;
        }
        assert(ves[i as int].1 == es@[i as int].1@);
        assert(ents[i as int] == keys[i as int] + vals[i as int]);
        payload = payload + key_len + value_len;
        i = i + 1;
    }
    assert(ents.take(n as int) =~= ents);
    if payload as u128 + 17 + 8 * (n as u128) >= 0x1_0000_0000_0000_0000 {
        return None;
    }
    if n == 0 {
        return Some(1);
    }
    proof {
        lemma_object_len(keys, vals);
    }
    let n64 = n as u64;
    if 3 + payload + n64 < 0x100 {
        Some(3 + payload + n64)
    } else if 5 + payload + 2 * n64 < 0x1_0000 {
        Some(5 + payload + 2 * n64)
    } else if 9 + payload + 4 * n64 < 0x1_0000_0000 {
        Some(9 + payload + 4 * n64)
    } else {
        Some(17 + payload + 8 * n64)
    }
}

/// The length of a value's encoding, when every container in it can state
/// its size and the length fits in 64 bits.
fn encoded_len(v: &Value) -> (r: Option<u64>)
    ensures
        match r {
            Some(n) => encodable(v@) && n == encode(v@).len(),
            None => !encodable(v@) || encode(v@).len() >= byte_limit(8),
        },
    decreases v, 1nat,
{
    proof {
        lemma_value_views(*v);
    }
    match v {
        Value::Array(items) => {
            proof {
                assert(decreases_to!(*v => v->Array_0));
            }
            array_len(items)
        },
        Value::Object(es) => {
            proof {
                assert(decreases_to!(*v => v->Object_0));
            }
            object_len(es)
        },
        _ => scalar_len(v),
    }
}

/// Whether [`to_bytes`] can encode the value: every container in it must
/// be able to state its size in an 8-byte field.
pub fn is_encodable(v: &Value) -> (r: bool)
    ensures
        r == encodable(v@),
{
    proof {
        lemma_value_views(*v);
    }
    match v {
        Value::Array(items) => array_len(items).is_some(),
        Value::Object(es) => object_len(es).is_some(),
        _ => true,
    }
}

/// Encodes a whole value.
pub fn to_bytes(v: &Value) -> (r: Vec<u8>)
    requires
        encodable(v@),
    ensures
        r@ == encode(v@),
{
    let mut ser = Serializer::new();
    ser.serialize_value(v);
    assert(ser@ =~= encode(v@));
    ser.into_bytes()
}

} // verus!
