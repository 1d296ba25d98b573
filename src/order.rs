//! The order in which an object's index table lists its keys: lexicographic
//! on the key's encoded bytes, ties going to the key given first.
use vstd::prelude::*;
use vstd::set_lib::{lemma_int_range, lemma_map_size, lemma_subset_equality, set_int_range};

verus! {

/// `a` sorts strictly before `b` in lexicographic byte order.
pub open spec fn lex_lt(a: Seq<u8>, b: Seq<u8>) -> bool
    decreases a.len(),
{
    if a.len() == 0 {
        b.len() > 0
    } else if b.len() == 0 {
        false
    } else if a[0] != b[0] {
        a[0] < b[0]
    } else {
        lex_lt(a.drop_first(), b.drop_first())
    }
}

/// Lexicographic or equal.
pub open spec fn lex_le(a: Seq<u8>, b: Seq<u8>) -> bool {
    lex_lt(a, b) || a == b
}

/// The views of a list of byte vectors.
pub open spec fn byte_seqs(v: Seq<Vec<u8>>) -> Seq<Seq<u8>> {
    v.map_values(|b: Vec<u8>| b@)
}

/// Entry `i` is listed before entry `j`: its key is smaller, or the keys are
/// equal and it was given first.
pub open spec fn key_before(keys: Seq<Seq<u8>>, i: int, j: int) -> bool {
    lex_lt(keys[i], keys[j]) || (keys[i] == keys[j] && i < j)
}

/// How many of the first `k` entries are listed before entry `i`.
pub open spec fn count_before(keys: Seq<Seq<u8>>, i: int, k: int) -> nat
    decreases k,
{
    if k <= 0 {
        0
    } else {
        count_before(keys, i, k - 1) + if key_before(keys, k - 1, i) {
            1nat
        } else {
            0nat
        }
    }
}

/// The position of entry `i` in the index table.
pub open spec fn rank(keys: Seq<Seq<u8>>, i: int) -> nat {
    count_before(keys, i, keys.len() as int)
}

/// The entry listed at position `p` of the index table.
pub open spec fn entry_at_rank(keys: Seq<Seq<u8>>, p: int) -> int {
    choose|i: int| 0 <= i < keys.len() && rank(keys, i) == p
}

pub proof fn lemma_lex_irreflexive(a: Seq<u8>)
    ensures
        !lex_lt(a, a),
    decreases a.len(),
{
    if a.len() > 0 {
        lemma_lex_irreflexive(a.drop_first());
    }
}

pub proof fn lemma_lex_asymmetric(a: Seq<u8>, b: Seq<u8>)
    ensures
        lex_lt(a, b) ==> !lex_lt(b, a),
    decreases a.len(),
{
    if a.len() > 0 && b.len() > 0 && a[0] == b[0] {
        lemma_lex_asymmetric(a.drop_first(), b.drop_first());
    }
}

pub proof fn lemma_lex_transitive(a: Seq<u8>, b: Seq<u8>, c: Seq<u8>)
    ensures
        lex_lt(a, b) && lex_lt(b, c) ==> lex_lt(a, c),
    decreases a.len(),
{
    if a.len() > 0 && b.len() > 0 && c.len() > 0 {
        lemma_lex_transitive(a.drop_first(), b.drop_first(), c.drop_first());
    }
}

pub proof fn lemma_lex_total(a: Seq<u8>, b: Seq<u8>)
    ensures
        a == b || lex_lt(a, b) || lex_lt(b, a),
    decreases a.len(),
{
    if a.len() == 0 || b.len() == 0 {
        if a.len() == 0 && b.len() == 0 {
            assert(a =~= b);
        }
    } else if a[0] == b[0] {
        let (ta, tb) = (a.drop_first(), b.drop_first());
        lemma_lex_total(ta, tb);
        if ta == tb {
            assert forall|k: int| 0 <= k < a.len() implies a[k] == b[k] by {
                if k > 0 {
                    assert(a[k] == ta[k - 1]);
                    assert(b[k] == tb[k - 1]);
                }
            }
            assert(a =~= b);
        }
    }
}

/// Comparing two byte strings that agree on their first `i` bytes comes down
/// to comparing what follows.
proof fn lemma_lex_skip_prefix(a: Seq<u8>, b: Seq<u8>, i: int)
    requires
        0 <= i <= a.len(),
        i <= b.len(),
        a.subrange(0, i) == b.subrange(0, i),
    ensures
        lex_lt(a, b) == lex_lt(a.subrange(i, a.len() as int), b.subrange(i, b.len() as int)),
    decreases i,
{
    if i > 0 {
        assert(a[0] == a.subrange(0, i)[0]);
        assert(b[0] == b.subrange(0, i)[0]);
        assert(a[0] == b[0]);
        assert(lex_lt(a, b) == lex_lt(a.drop_first(), b.drop_first()));
        assert(a.drop_first().subrange(0, i - 1) =~= a.subrange(0, i).drop_first());
        assert(b.drop_first().subrange(0, i - 1) =~= b.subrange(0, i).drop_first());
        lemma_lex_skip_prefix(a.drop_first(), b.drop_first(), i - 1);
        assert(a.drop_first().subrange(i - 1, a.len() - 1) =~= a.subrange(i, a.len() as int));
        assert(b.drop_first().subrange(i - 1, b.len() - 1) =~= b.subrange(i, b.len() as int));
    } else {
        assert(a.subrange(0, a.len() as int) =~= a);
        assert(b.subrange(0, b.len() as int) =~= b);
    }
}

/// Compares two byte strings: negative when `a` sorts first, zero when they
/// are equal, positive when `b` sorts first.
pub fn lex_cmp(a: &[u8], b: &[u8]) -> (r: i8)
    ensures
        r < 0 <==> lex_lt(a@, b@),
        r == 0 <==> a@ == b@,
        r > 0 <==> lex_lt(b@, a@),
{
    let la = a.len();
    let lb = b.len();
    let mut i: usize = 0;
    while i < la && i < lb
        invariant
            la == a@.len(),
            lb == b@.len(),
            i <= la,
            i <= lb,
            a@.subrange(0, i as int) == b@.subrange(0, i as int),
        decreases la - i,
    {
        if a[i] != b[i] {
            proof {
                let sa = a@.subrange(i as int, la as int);
                let sb = b@.subrange(i as int, lb as int);
                lemma_lex_skip_prefix(a@, b@, i as int);
                lemma_lex_skip_prefix(b@, a@, i as int);
                assert(sa[0] == a@[i as int]);
                assert(sb[0] == b@[i as int]);
                assert(a@[i as int] == a@.subrange(0, i as int + 1)[i as int]);
            }
            if a[i] < b[i] {
                return -1;
            } else {
                return 1;
            }
        }
        assert(a@.subrange(0, i + 1) =~= a@.subrange(0, i as int).push(a@[i as int]));
        assert(b@.subrange(0, i + 1) =~= b@.subrange(0, i as int).push(b@[i as int]));
        i = i + 1;
    }
    proof {
        lemma_lex_skip_prefix(a@, b@, i as int);
        lemma_lex_skip_prefix(b@, a@, i as int);
        let sa = a@.subrange(i as int, la as int);
        let sb = b@.subrange(i as int, lb as int);
        if la == lb {
            assert(a@ =~= a@.subrange(0, i as int));
            assert(b@ =~= b@.subrange(0, i as int));
        }
        assert(la == i ==> sa.len() == 0);
        assert(lb == i ==> sb.len() == 0);
    }
    if la < lb {
        -1
    } else if la == lb {
        0
    } else {
        1
    }
}

proof fn lemma_key_before_order(keys: Seq<Seq<u8>>, i: int, j: int, k: int)
    ensures
        !key_before(keys, i, i),
        key_before(keys, i, j) ==> !key_before(keys, j, i),
        key_before(keys, i, j) && key_before(keys, j, k) ==> key_before(keys, i, k),
        i != j ==> key_before(keys, i, j) || key_before(keys, j, i),
{
    lemma_lex_irreflexive(keys[i]);
    lemma_lex_asymmetric(keys[i], keys[j]);
    lemma_lex_transitive(keys[i], keys[j], keys[k]);
    lemma_lex_total(keys[i], keys[j]);
    if keys[i] == keys[j] {
        if lex_lt(keys[j], keys[k]) {
        }
    }
    if keys[j] == keys[k] {
        if lex_lt(keys[i], keys[j]) {
        }
    }
}

proof fn lemma_count_bound(keys: Seq<Seq<u8>>, i: int, k: int)
    requires
        0 <= k,
    ensures
        count_before(keys, i, k) + (if 0 <= i < k {
            1int
        } else {
            0int
        }) <= k,
    decreases k,
{
    if k > 0 {
        lemma_count_bound(keys, i, k - 1);
        lemma_key_before_order(keys, i, i, i);
    }
}

/// An entry listed before another has fewer entries before it.
proof fn lemma_count_monotonic(keys: Seq<Seq<u8>>, i: int, j: int, k: int)
    requires
        0 <= k,
        key_before(keys, i, j),
    ensures
        count_before(keys, i, k) + (if 0 <= i < k {
            1int
        } else {
            0int
        }) <= count_before(keys, j, k),
    decreases k,
{
    if k > 0 {
        lemma_count_monotonic(keys, i, j, k - 1);
        lemma_key_before_order(keys, k - 1, i, j);
        lemma_key_before_order(keys, i, i, i);
    }
}

/// The ranks of the entries are exactly the positions `0..n`, each taken once.
pub proof fn lemma_rank_permutation(keys: Seq<Seq<u8>>)
    ensures
        forall|i: int| 0 <= i < keys.len() ==> #[trigger] rank(keys, i) < keys.len(),
        forall|i: int, j: int|
            0 <= i < keys.len() && 0 <= j < keys.len() && i != j ==> #[trigger] rank(keys, i)
                != #[trigger] rank(keys, j),
        forall|i: int, j: int|
            0 <= i < keys.len() && 0 <= j < keys.len() && rank(keys, i) < rank(keys, j)
                ==> key_before(keys, i, j),
        forall|p: int|
            0 <= p < keys.len() ==> {
                let i = #[trigger] entry_at_rank(keys, p);
                0 <= i < keys.len() && rank(keys, i) == p
            },
{
    let n = keys.len() as int;
    assert forall|i: int| 0 <= i < n implies #[trigger] rank(keys, i) < n by {
        lemma_count_bound(keys, i, n);
    }
    assert forall|i: int, j: int| 0 <= i < n && 0 <= j < n && i != j implies #[trigger] rank(
        keys,
        i,
    ) != #[trigger] rank(keys, j) by {
        lemma_key_before_order(keys, i, j, i);
        if key_before(keys, i, j) {
            lemma_count_monotonic(keys, i, j, n);
        } else {
            lemma_count_monotonic(keys, j, i, n);
        }
    }
    assert forall|i: int, j: int|
        0 <= i < n && 0 <= j < n && rank(keys, i) < rank(keys, j) implies key_before(
        keys,
        i,
        j,
    ) by {
        lemma_key_before_order(keys, i, j, i);
        if i == j {
        } else if key_before(keys, j, i) {
            lemma_count_monotonic(keys, j, i, n);
        }
    }
    let range = set_int_range(0, n);
    let f = |i: int| rank(keys, i) as int;
    lemma_int_range(0, n);
    let image = range.map(f);
    assert(vstd::relations::injective_on(f, range));
    lemma_map_size(range, image, f);
    assert(image.subset_of(range)) by {
        assert forall|p: int| image.contains(p) implies range.contains(p) by {
            let i = choose|i: int| range.contains(i) && f(i) == p;
        }
    }
    lemma_subset_equality(image, range);
    assert forall|p: int| 0 <= p < n implies {
        let i = #[trigger] entry_at_rank(keys, p);
        0 <= i < n && rank(keys, i) == p
    } by {
        assert(range.contains(p));
        assert(image.contains(p));
        let i = choose|i: int| range.contains(i) && f(i) == p;
        assert(0 <= i < n && rank(keys, i) == p);
    }
}

/// The entries in the order that the index table lists them: position `p`
/// holds the entry of rank `p`.
pub fn sorted_order(keys: &Vec<Vec<u8>>) -> (r: Vec<usize>)
    ensures
        r@.len() == keys@.len(),
        forall|p: int|
            0 <= p < keys@.len() ==> r@[p] as int == entry_at_rank(byte_seqs(keys@), p),
{
    let ghost ks = byte_seqs(keys@);
    let n = keys.len();
    proof {
        lemma_rank_permutation(ks);
    }
    let mut order: Vec<usize> = Vec::new();
    let mut f: usize = 0;
    while f < n
        invariant
            f <= n,
            n == keys@.len(),
            order@.len() == f,
        decreases n - f,
    {
        order.push(0);
        f = f + 1;
    }
    let mut i: usize = 0;
    while i < n
        invariant
            i <= n,
            n == keys@.len(),
            ks == byte_seqs(keys@),
            order@.len() == n,
            forall|j: int| 0 <= j < i ==> order@[rank(ks, j) as int] as int == j,
            forall|j: int| 0 <= j < n ==> #[trigger] rank(ks, j) < n,
            forall|j: int, k: int|
                0 <= j < n && 0 <= k < n && j != k ==> #[trigger] rank(ks, j) != #[trigger] rank(
                    ks,
                    k,
                ),
        decreases n - i,
    {
        let mut count: usize = 0;
        let mut j: usize = 0;
        while j < n
            invariant
                j <= n,
                i < n,
                n == keys@.len(),
                ks == byte_seqs(keys@),
                count as nat == count_before(ks, i as int, j as int),
                count <= j,
            decreases n - j,
        {
            let c = lex_cmp(keys[j].as_slice(), keys[i].as_slice());
            if c < 0 || (c == 0 && j < i) {
                count = count + 1;
            }
            j = j + 1;
        }
        assert(rank(ks, i as int) == count);
        order.set(count, i);
        i = i + 1;
    }
    proof {
        assert forall|p: int| 0 <= p < n implies order@[p] as int == entry_at_rank(ks, p) by {
            let e = entry_at_rank(ks, p);
            assert(order@[rank(ks, e) as int] as int == e);
        }
    }
    order
}

} // verus!
