//! Blocks and their order.
//!
//! A byte buffer is read as a row of equal-sized blocks. Blocks are ordered as
//! unsigned byte strings, leftmost byte most significant.

use vstd::prelude::*;

verus! {

/// `a` and `b` hold the same bytes at every index below `i`.
pub open spec fn agree_before(a: Seq<u8>, b: Seq<u8>, i: int) -> bool {
    forall|j: int| 0 <= j < i ==> a[j] == b[j]
}

/// `i` is the first index at which `a` and `b` differ, and `a` is smaller there.
pub open spec fn less_at(a: Seq<u8>, b: Seq<u8>, i: int) -> bool {
    &&& 0 <= i < a.len()
    &&& i < b.len()
    &&& agree_before(a, b, i)
    &&& a[i] < b[i]
}

/// Lexicographic order on byte strings: `a` is a prefix of `b`, or `a` is
/// smaller at the first index where they differ.
pub open spec fn lex_le(a: Seq<u8>, b: Seq<u8>) -> bool {
    ||| a.len() <= b.len() && agree_before(a, b, a.len() as int)
    ||| exists|i: int| less_at(a, b, i)
}

/// Every byte string precedes or equals itself.
pub proof fn lemma_lex_le_reflexive(a: Seq<u8>)
    ensures
        lex_le(a, a),
{
}

/// Two byte strings that precede each other are the same string.
pub proof fn lemma_lex_le_antisymmetric(a: Seq<u8>, b: Seq<u8>)
    requires
        lex_le(a, b),
        lex_le(b, a),
    ensures
        a == b,
{
    if exists|i: int| less_at(a, b, i) {
        let i = choose|i: int| less_at(a, b, i);
        if exists|j: int| less_at(b, a, j) {
            let j = choose|j: int| less_at(b, a, j);
            assert(false);
        }
        assert(false);
    }
    if exists|j: int| less_at(b, a, j) {
        let j = choose|j: int| less_at(b, a, j);
        assert(false);
    }
    assert(a =~= b);
}

/// The order is transitive.
pub proof fn lemma_lex_le_transitive(a: Seq<u8>, b: Seq<u8>, c: Seq<u8>)
    requires
        lex_le(a, b),
        lex_le(b, c),
    ensures
        lex_le(a, c),
{
    if exists|i: int| less_at(a, b, i) {
        let i = choose|i: int| less_at(a, b, i);
        if exists|j: int| less_at(b, c, j) {
            let j = choose|j: int| less_at(b, c, j);
            if i <= j {
                assert(less_at(a, c, i));
            } else {
                assert(less_at(a, c, j));
            }
        } else {
            assert(less_at(a, c, i));
        }
    } else {
        if exists|j: int| less_at(b, c, j) {
            let j = choose|j: int| less_at(b, c, j);
            if j < a.len() {
                assert(less_at(a, c, j));
            } else {
                assert(agree_before(a, c, a.len() as int));
            }
        } else {
            assert(agree_before(a, c, a.len() as int));
        }
    }
}

proof fn lemma_lex_le_total_from(a: Seq<u8>, b: Seq<u8>, k: int)
    requires
        0 <= k <= a.len(),
        k <= b.len(),
        agree_before(a, b, k),
    ensures
        lex_le(a, b) || lex_le(b, a),
    decreases a.len() - k,
{
    if k == a.len() {
    } else if k == b.len() {
        assert(agree_before(b, a, k));
    } else if a[k] < b[k] {
        assert(less_at(a, b, k));
    } else if b[k] < a[k] {
        assert(agree_before(b, a, k));
        assert(less_at(b, a, k));
    } else {
        lemma_lex_le_total_from(a, b, k + 1);
    }
}

/// Any two byte strings are comparable.
pub proof fn lemma_lex_le_total(a: Seq<u8>, b: Seq<u8>)
    ensures
        lex_le(a, b) || lex_le(b, a),
{
    lemma_lex_le_total_from(a, b, 0);
}

/// Whether `a` precedes or equals `b`.
pub fn bytes_le(a: &[u8], b: &[u8]) -> (r: bool)
    ensures
        r == lex_le(a@, b@),
{
    let n: usize = if a.len() <= b.len() {
        a.len()
    } else {
        b.len()
    };
    let mut k: usize = 0;
    while k < n
        invariant
            k <= n,
            n <= a.len(),
            n <= b.len(),
            agree_before(a@, b@, k as int),
        decreases n - k,
    {
        if a[k] != b[k] {
            proof {
                if a[k as int] < b[k as int] {
                    assert(less_at(a@, b@, k as int));
                } else {
                    assert(forall|i: int| !less_at(a@, b@, i));
                }
            }
            return a[k] < b[k];
        }
        k += 1;
    }
    proof {
        if a.len() > b.len() {
            assert(forall|i: int| !less_at(a@, b@, i));
        }
    }
    a.len() <= b.len()
}

/// A buffer of `len` bytes holds a whole block number `k` of size `bs`.
pub open spec fn has_block(len: int, bs: int, k: int) -> bool {
    0 <= k && k * bs + bs <= len
}

/// Block number `k` of `bytes`, for blocks of `bs` bytes.
pub open spec fn block_at(bytes: Seq<u8>, bs: int, k: int) -> Seq<u8> {
    bytes.subrange(k * bs, k * bs + bs)
}

/// How many whole blocks of `bs` bytes `bytes` holds. Bytes after the last
/// whole block belong to no block.
pub open spec fn block_count(bytes: Seq<u8>, bs: int) -> int {
    bytes.len() as int / bs
}

/// The whole blocks of `bytes`, in file order.
pub open spec fn blocks_of(bytes: Seq<u8>, bs: int) -> Seq<Seq<u8>> {
    Seq::new(block_count(bytes, bs) as nat, |k: int| block_at(bytes, bs, k))
}

/// No block is followed, anywhere later, by a smaller one.
pub open spec fn blocks_sorted(blocks: Seq<Seq<u8>>) -> bool {
    forall|i: int, j: int| 0 <= i <= j < blocks.len() ==> lex_le(#[trigger] blocks[i], #[trigger] blocks[j])
}

/// `bytes` is block-monotone: read as blocks of `bs` bytes, the blocks never
/// decrease.
pub open spec fn block_monotone(bytes: Seq<u8>, bs: int) -> bool {
    blocks_sorted(blocks_of(bytes, bs))
}

/// The blocks that a buffer holds are those whose number is below its block
/// count.
pub proof fn lemma_has_block(len: int, bs: int, k: int)
    requires
        bs > 0,
        len >= 0,
    ensures
        has_block(len, bs, k) <==> 0 <= k < len / bs,
        has_block(len, bs, k) ==> 0 <= k * bs,
{
    assert(has_block(len, bs, k) <==> 0 <= k < len / bs) by (nonlinear_arith)
        requires
            bs > 0,
            len >= 0,
    {
        if 0 <= k {
            assert(k * bs + bs == (k + 1) * bs);
            assert(len == bs * (len / bs) + len % bs);
            assert(0 <= len % bs < bs);
            if k < len / bs {
                assert((k + 1) * bs <= (len / bs) * bs);
            } else {
                assert((k + 1) * bs >= (len / bs + 1) * bs);
            }
        }
    }
    assert(0 <= k ==> 0 <= k * bs) by (nonlinear_arith)
        requires
            bs > 0,
    ;
}

/// Sorted rows of blocks have no adjacent pair out of order, and the other way
/// round: a row without such a pair is sorted.
pub proof fn lemma_sorted_iff_adjacent(blocks: Seq<Seq<u8>>)
    ensures
        blocks_sorted(blocks) <==> forall|k: int|
            0 <= k && k + 1 < blocks.len() ==> lex_le(#[trigger] blocks[k], blocks[k + 1]),
{
    if forall|k: int| 0 <= k && k + 1 < blocks.len() ==> lex_le(#[trigger] blocks[k], blocks[k + 1]) {
        assert forall|i: int, j: int| 0 <= i <= j < blocks.len() implies lex_le(
            #[trigger] blocks[i],
            #[trigger] blocks[j],
        ) by {
            lemma_adjacent_chain(blocks, i, j);
        }
    }
    if blocks_sorted(blocks) {
        assert forall|k: int| 0 <= k && k + 1 < blocks.len() implies lex_le(
            #[trigger] blocks[k],
            blocks[k + 1],
        ) by {
            assert(lex_le(blocks[k], blocks[k + 1]));
        }
    }
}

proof fn lemma_adjacent_chain(blocks: Seq<Seq<u8>>, i: int, j: int)
    requires
        0 <= i <= j < blocks.len(),
        forall|k: int| 0 <= k && k + 1 < blocks.len() ==> lex_le(#[trigger] blocks[k], blocks[k + 1]),
    ensures
        lex_le(blocks[i], blocks[j]),
    decreases j - i,
{
    if i == j {
        lemma_lex_le_reflexive(blocks[i]);
    } else {
        lemma_adjacent_chain(blocks, i, j - 1);
        assert(lex_le(blocks[j - 1], blocks[j - 1 + 1]));
        lemma_lex_le_transitive(blocks[i], blocks[j - 1], blocks[j]);
    }
}

/// Adding `bs` bytes to a buffer adds one block and leaves what is over as it
/// was.
pub proof fn lemma_block_count_step(len: int, bs: int)
    requires
        bs > 0,
        len >= 0,
    ensures
        (len + bs) / bs == len / bs + 1,
        (len + bs) % bs == len % bs,
        len % bs == 0 ==> (len / bs) * bs == len,
{
    assert((len + bs) / bs == len / bs + 1 && (len + bs) % bs == len % bs) by (nonlinear_arith)
        requires
            bs > 0,
            len >= 0,
    {
        assert(len == bs * (len / bs) + len % bs);
        assert(len + bs == bs * ((len + bs) / bs) + (len + bs) % bs);
        assert(0 <= len % bs < bs);
        assert(0 <= (len + bs) % bs < bs);
        assert(bs * ((len + bs) / bs - len / bs - 1) == len % bs - (len + bs) % bs);
        if (len + bs) / bs - len / bs - 1 > 0 {
            assert(bs * ((len + bs) / bs - len / bs - 1) >= bs);
        }
        if (len + bs) / bs - len / bs - 1 < 0 {
            assert(bs * ((len + bs) / bs - len / bs - 1) <= -bs);
        }
    }
    assert(len % bs == 0 ==> (len / bs) * bs == len) by (nonlinear_arith)
        requires
            bs > 0,
            len >= 0,
    {
        assert(len == bs * (len / bs) + len % bs);
    }
}

/// A buffer of whole blocks, with one more block behind it, holds the blocks
/// it held and then that block.
pub proof fn lemma_blocks_of_append(bytes: Seq<u8>, block: Seq<u8>, bs: int)
    requires
        bs > 0,
        bytes.len() as int % bs == 0,
        block.len() == bs,
    ensures
        blocks_of(bytes + block, bs) == blocks_of(bytes, bs).push(block),
        block_count(bytes + block, bs) == block_count(bytes, bs) + 1,
        (bytes + block).len() as int % bs == 0,
{
    let longer = bytes + block;
    let len = bytes.len() as int;
    lemma_block_count_step(len, bs);
    assert forall|k: int| 0 <= k < block_count(longer, bs) implies #[trigger] blocks_of(longer, bs)[k]
        == blocks_of(bytes, bs).push(block)[k] by {
        if k < block_count(bytes, bs) {
            lemma_has_block(len, bs, k);
            assert(block_at(longer, bs, k) =~= block_at(bytes, bs, k));
        } else {
            assert(k * bs == len);
            assert(block_at(longer, bs, k) =~= block);
        }
    }
    assert(blocks_of(longer, bs) =~= blocks_of(bytes, bs).push(block));
}

/// A buffer of `k` whole blocks and `rest` bytes more, `rest` less than a
/// block, holds `k` blocks and has `rest` bytes over.
pub proof fn lemma_blocks_and_rest(len: int, bs: int, k: int, rest: int)
    requires
        bs > 0,
        0 <= rest < bs,
        len == k * bs + rest,
    ensures
        len / bs == k,
        len % bs == rest,
        k * bs + bs == (k + 1) * bs,
{
    vstd::arithmetic::div_mod::lemma_fundamental_div_mod_converse(len, bs, k, rest);
    assert(k * bs + bs == (k + 1) * bs) by (nonlinear_arith);
}

/// The blocks of two buffers joined, the first made of whole blocks, are the
/// blocks of the first and then those of the second.
pub proof fn lemma_blocks_of_concat(a: Seq<u8>, b: Seq<u8>, bs: int)
    requires
        bs > 0,
        a.len() as int % bs == 0,
    ensures
        blocks_of(a + b, bs) == blocks_of(a, bs) + blocks_of(b, bs),
{
    let joined = a + b;
    let first = block_count(a, bs);
    let second = block_count(b, bs);
    lemma_block_count_step(a.len() as int, bs);
    assert(joined.len() == (first + second) * bs + b.len() as int % bs) by (nonlinear_arith)
        requires
            bs > 0,
            joined.len() == a.len() + b.len(),
            first * bs == a.len(),
            second == b.len() as int / bs,
    {
        assert(b.len() as int == bs * (b.len() as int / bs) + b.len() as int % bs);
    }
    assert(0 <= b.len() as int % bs < bs) by (nonlinear_arith)
        requires
            bs > 0,
    ;
    lemma_blocks_and_rest(joined.len() as int, bs, first + second, b.len() as int % bs);
    assert forall|k: int| 0 <= k < first + second implies #[trigger] blocks_of(joined, bs)[k] == (
    blocks_of(a, bs) + blocks_of(b, bs))[k] by {
        if k < first {
            lemma_has_block(a.len() as int, bs, k);
            assert(block_at(joined, bs, k) =~= block_at(a, bs, k));
        } else {
            lemma_has_block(b.len() as int, bs, k - first);
            assert(k * bs == first * bs + (k - first) * bs) by (nonlinear_arith);
            assert(block_at(joined, bs, k) =~= block_at(b, bs, k - first));
        }
    }
    assert(blocks_of(joined, bs) =~= blocks_of(a, bs) + blocks_of(b, bs));
}

/// Buffers of whole blocks that hold the same blocks in the same order are
/// the same buffer.
pub proof fn lemma_same_blocks_same_bytes(a: Seq<u8>, b: Seq<u8>, bs: int)
    requires
        bs > 0,
        a.len() as int % bs == 0,
        b.len() as int % bs == 0,
        blocks_of(a, bs) == blocks_of(b, bs),
    ensures
        a == b,
{
    lemma_block_count_step(a.len() as int, bs);
    lemma_block_count_step(b.len() as int, bs);
    assert(block_count(a, bs) >= 0 && block_count(b, bs) >= 0) by (nonlinear_arith)
        requires
            bs > 0,
            block_count(a, bs) == a.len() as int / bs,
            block_count(b, bs) == b.len() as int / bs,
    ;
    assert(blocks_of(a, bs).len() == block_count(a, bs));
    assert(blocks_of(b, bs).len() == block_count(b, bs));
    assert(a.len() == b.len());
    assert forall|x: int| 0 <= x < a.len() implies a[x] == b[x] by {
        let k = x / bs;
        let off = x % bs;
        assert(x == k * bs + off && 0 <= off < bs && 0 <= k) by (nonlinear_arith)
            requires
                bs > 0,
                0 <= x,
                k == x / bs,
                off == x % bs,
        {
            assert(x == bs * (x / bs) + x % bs);
        }
        assert(k < a.len() as int / bs) by (nonlinear_arith)
            requires
                bs > 0,
                x == k * bs + off,
                0 <= off,
                x < a.len(),
                (a.len() as int / bs) * bs == a.len(),
        {
            if k >= a.len() as int / bs {
                assert(k * bs >= (a.len() as int / bs) * bs);
            }
        }
        lemma_has_block(a.len() as int, bs, k);
        assert(blocks_of(a, bs)[k] == blocks_of(b, bs)[k]);
        assert(block_at(a, bs, k)[off] == a[x]);
        assert(block_at(b, bs, k)[off] == b[x]);
    }
    assert(a =~= b);
}

/// Different blocks of a buffer do not overlap.
pub proof fn lemma_blocks_apart(bs: int, i: int, j: int)
    requires
        bs > 0,
        0 <= i < j,
    ensures
        0 <= i * bs,
        i * bs + bs <= j * bs,
{
    assert(0 <= i * bs && i * bs + bs <= j * bs) by (nonlinear_arith)
        requires
            bs > 0,
            0 <= i < j,
    {
        assert(i * bs + bs == (i + 1) * bs);
        assert((i + 1) * bs <= j * bs);
    }
}

/// Whether block `i` of `buf` precedes or equals block `j`.
pub fn block_le(buf: &[u8], bs: usize, i: usize, j: usize) -> (r: bool)
    requires
        has_block(buf@.len() as int, bs as int, i as int),
        has_block(buf@.len() as int, bs as int, j as int),
    ensures
        r == lex_le(block_at(buf@, bs as int, i as int), block_at(buf@, bs as int, j as int)),
{
    let a = block_ref(buf, bs, i);
    let b = block_ref(buf, bs, j);
    bytes_le(a, b)
}

/// Block number `k` of `buf`, borrowed.
pub fn block_ref(buf: &[u8], bs: usize, k: usize) -> (block: &[u8])
    requires
        has_block(buf@.len() as int, bs as int, k as int),
    ensures
        block@ == block_at(buf@, bs as int, k as int),
{
    let len = buf.len();
    assert(0 <= (k as int) * (bs as int)) by (nonlinear_arith);
    assert((k as int) * (bs as int) + bs <= len);
    let start = k * bs;
    vstd::slice::slice_subrange(buf, start, start + bs)
}

/// Overwrites block number `k` of `buf` with `block`.
pub fn store_block(buf: &mut Vec<u8>, bs: usize, k: usize, block: &[u8])
    requires
        bs > 0,
        has_block(old(buf)@.len() as int, bs as int, k as int),
        block@.len() == bs,
    ensures
        final(buf)@.len() == old(buf)@.len(),
        block_at(final(buf)@, bs as int, k as int) == block@,
        forall|j: int|
            has_block(old(buf)@.len() as int, bs as int, j) && j != k ==> #[trigger] block_at(
                final(buf)@,
                bs as int,
                j,
            ) == block_at(old(buf)@, bs as int, j),
{
    let len = buf.len();
    assert(0 <= (k as int) * (bs as int)) by (nonlinear_arith);
    assert((k as int) * (bs as int) + bs <= len);
    let start: usize = k * bs;
    let mut i: usize = 0;
    while i < bs
        invariant
            i <= bs,
            start + bs <= len,
            block@.len() == bs,
            buf@.len() == len,
            len == old(buf)@.len(),
            forall|x: int| 0 <= x < i ==> buf@[start + x] == block@[x],
            forall|x: int| 0 <= x < len && !(start <= x < start + i) ==> buf@[x] == old(buf)@[x],
        decreases bs - i,
    {
        buf.set(start + i, block[i]);
        i += 1;
    }
    proof {
        assert(block_at(buf@, bs as int, k as int) =~= block@);
        assert forall|j: int|
            has_block(old(buf)@.len() as int, bs as int, j) && j != k implies #[trigger] block_at(
            buf@,
            bs as int,
            j,
        ) == block_at(old(buf)@, bs as int, j) by {
            if j < k {
                lemma_blocks_apart(bs as int, j, k as int);
            } else {
                lemma_blocks_apart(bs as int, k as int, j);
            }
            assert(block_at(buf@, bs as int, j) =~= block_at(old(buf)@, bs as int, j));
        }
    }
}

} // verus!
