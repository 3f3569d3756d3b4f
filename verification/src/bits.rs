//! Five-bit block access inside packed `u128` words.
//!
//! A packed orbit word stores one piece per five-bit block: block `i`
//! occupies bits `5 * i .. 5 * i + 5`.  The lemmas here describe how
//! shifting, masking and or-ing values into a word act on its blocks.
use vstd::prelude::*;

verus! {

/// The five-bit block number `i` of the packed word `w`.
pub open spec fn blk(w: u128, i: int) -> u128 {
    (w >> ((5 * i) as u128)) & 31
}

/// The word whose blocks `0 .. n` hold `f(0) .. f(n - 1)`, written in order.
pub open spec fn build(f: spec_fn(int) -> u128, n: nat) -> u128
    decreases n,
{
    if n == 0 {
        0
    } else {
        build(f, (n - 1) as nat) | (f(n - 1) << ((5 * (n - 1)) as u128))
    }
}

/// The word obtained by or-ing `val(i)` into block `pos(i)` for `i` in `0 .. n`.
pub open spec fn scatter(val: spec_fn(int) -> u128, pos: spec_fn(int) -> u128, n: nat) -> u128
    decreases n,
{
    if n == 0 {
        0
    } else {
        scatter(val, pos, (n - 1) as nat) | (val(n - 1) << ((5 * pos(n - 1)) as u128))
    }
}

/// All values `f(0) .. f(n - 1)` fit in a block.
pub open spec fn fits(f: spec_fn(int) -> u128, n: nat) -> bool {
    forall|i: int| 0 <= i < n ==> #[trigger] f(i) < 32
}

/// Writing a five-bit value into an empty block changes that block and no other.
pub proof fn lemma_set_block(out: u128, v: u128, p: u128, j: u128)
    requires
        v < 32,
        p < 25,
        j < 26,
        (out >> ((5 * p) as u128)) & 31 == 0,
    ensures
        ((out | (v << ((5 * p) as u128))) >> ((5 * j) as u128)) & 31 == (if j == p {
            v
        } else {
            (out >> ((5 * j) as u128)) & 31
        }),
{
    assert(((out | (v << ((5 * p) as u128))) >> ((5 * j) as u128)) & 31 == (if j == p {
        v
    } else {
        (out >> ((5 * j) as u128)) & 31
    })) by (bit_vector)
        requires
            v < 32,
            p < 25,
            j < 26,
            (out >> ((5 * p) as u128)) & 31 == 0,
    ;
}

/// Appending a block above an empty top keeps the part above it empty.
pub proof fn lemma_push_top(out: u128, v: u128, p: u128)
    requires
        v < 32,
        p < 25,
        out >> ((5 * p) as u128) == 0,
    ensures
        (out | (v << ((5 * p) as u128))) >> ((5 * (p + 1)) as u128) == 0,
        (out >> ((5 * p) as u128)) & 31 == 0,
{
    assert((out | (v << ((5 * p) as u128))) >> ((5 * (p + 1)) as u128) == 0 && (out >> ((5 * p) as u128)) & 31 == 0)
        by (bit_vector)
        requires
            v < 32,
            p < 25,
            out >> ((5 * p) as u128) == 0,
    ;
}

/// Two words that agree on a block and above it agree from that block up.
pub proof fn lemma_peel(x: u128, y: u128, p: u128)
    requires
        p < 25,
        (x >> ((5 * p) as u128)) & 31 == (y >> ((5 * p) as u128)) & 31,
        x >> ((5 * (p + 1)) as u128) == y >> ((5 * (p + 1)) as u128),
    ensures
        x >> ((5 * p) as u128) == y >> ((5 * p) as u128),
{
    assert(x >> ((5 * p) as u128) == y >> ((5 * p) as u128)) by (bit_vector)
        requires
            p < 25,
            (x >> ((5 * p) as u128)) & 31 == (y >> ((5 * p) as u128)) & 31,
            x >> ((5 * (p + 1)) as u128) == y >> ((5 * (p + 1)) as u128),
    ;
}

/// Words are equal when their low blocks and their tops are equal.
pub proof fn lemma_word_ext(x: u128, y: u128, n: nat)
    requires
        n <= 25,
        x >> ((5 * n) as u128) == y >> ((5 * n) as u128),
        forall|j: int| 0 <= j < n ==> #[trigger] blk(x, j) == blk(y, j),
    ensures
        x == y,
    decreases n,
{
    if n == 0 {
        assert(x >> 0u128 == x && y >> 0u128 == y) by (bit_vector);
    } else {
        let p = (n - 1) as nat;
        assert(blk(x, p as int) == blk(y, p as int));
        lemma_peel(x, y, p as u128);
        lemma_word_ext(x, y, p);
    }
}

/// The blocks of `build(f, n)`: `f` below `n`, zero from `n` on.
pub proof fn lemma_build(f: spec_fn(int) -> u128, n: nat)
    requires
        n <= 25,
        fits(f, n),
    ensures
        build(f, n) >> ((5 * n) as u128) == 0,
        forall|j: int| 0 <= j < 26 ==> #[trigger] blk(build(f, n), j) == (if j < n {
            f(j)
        } else {
            0
        }),
    decreases n,
{
    if n == 0 {
        assert(0u128 >> 0u128 == 0) by (bit_vector);
        assert forall|j: int| 0 <= j < 26 implies #[trigger] blk(build(f, n), j) == 0 by {
            let jj = j as u128;
            assert((0u128 >> (5 * jj)) & 31 == 0) by (bit_vector);
        }
    } else {
        let p = (n - 1) as nat;
        lemma_build(f, p);
        let prev = build(f, p);
        let v = f(p as int);
        lemma_push_top(prev, v, p as u128);
        assert forall|j: int| 0 <= j < 26 implies #[trigger] blk(build(f, n), j) == (if j < n {
            f(j)
        } else {
            0
        }) by {
            lemma_set_block(prev, v, p as u128, j as u128);
            assert(blk(prev, j) == (if j < p {
                f(j)
            } else {
                0
            }));
        }
    }
}

/// The blocks of `scatter(val, pos, n)` when the positions are distinct.
pub proof fn lemma_scatter(val: spec_fn(int) -> u128, pos: spec_fn(int) -> u128, n: nat)
    requires
        fits(val, n),
        forall|i: int| 0 <= i < n ==> #[trigger] pos(i) < 25,
        forall|i: int, k: int| 0 <= i < n && 0 <= k < n && i != k ==> #[trigger] pos(i) != #[trigger] pos(k),
    ensures
        forall|i: int| 0 <= i < n ==> #[trigger] blk(scatter(val, pos, n), pos(i) as int) == val(i),
        forall|j: int|
            0 <= j < 26 && (forall|i: int| 0 <= i < n ==> #[trigger] pos(i) != j) ==> #[trigger] blk(
                scatter(val, pos, n),
                j,
            ) == 0,
    decreases n,
{
    if n == 0 {
        assert forall|j: int| 0 <= j < 26 implies #[trigger] blk(scatter(val, pos, n), j) == 0 by {
            let jj = j as u128;
            assert((0u128 >> (5 * jj)) & 31 == 0) by (bit_vector);
        }
    } else {
        let p = (n - 1) as nat;
        lemma_scatter(val, pos, p);
        let prev = scatter(val, pos, p);
        let v = val(p as int);
        let q = pos(p as int);
        assert(blk(prev, q as int) == 0);
        let cur = prev | (v << ((5 * q) as u128));
        assert(scatter(val, pos, n) == cur);
        assert forall|i: int| 0 <= i < n implies #[trigger] blk(
            scatter(val, pos, n),
            pos(i) as int,
        ) == val(i) by {
            lemma_set_block(prev, v, q, pos(i));
            assert(((cur >> ((5 * pos(i)) as u128)) & 31) == blk(cur, pos(i) as int));
            if i < p {
                assert(pos(i) != q);
                assert(blk(prev, pos(i) as int) == val(i));
            }
        }
        assert forall|j: int|
            0 <= j < 26 && (forall|i: int| 0 <= i < n ==> #[trigger] pos(i) != j) implies #[trigger] blk(
            scatter(val, pos, n),
            j,
        ) == 0 by {
            assert(pos(p as int) != j);
            lemma_set_block(prev, v, q, j as u128);
            assert(((cur >> ((5 * (j as u128)) as u128)) & 31) == blk(cur, j));
            assert(forall|i: int| 0 <= i < p ==> #[trigger] pos(i) != j);
            assert(blk(prev, j) == 0);
        }
    }
}


/// Masking never gives more than the mask.
pub proof fn lemma_and_le(x: u128, m: u128)
    ensures
        x & m <= m,
{
    assert(x & m <= m) by (bit_vector);
}

} // verus!
