//! Random cubes: shuffled orbits with balanced orientations, drawn from the
//! thread-local generator of `rand`.
use rand::rngs::ThreadRng;
use rand::RngExt;
use vstd::prelude::*;

use crate::bits::{blk, lemma_build};
use crate::sign::{distinct, law_exchange_sign, lemma_positions_even, odd_reordering, positions, swapped};
use crate::cycles::{is_perm, step};
use crate::group::{lemma_blk_small, ori_valid, perm_valid};
use crate::arena::{
    arena_stride, center_of, corner_of, edge_of, identity_cube, is_odd, k_max, CubeArena, ID_24, ID_CENTER, ID_CORNER,
    ID_EDGE,
};
use crate::laws::{lemma_id_words, lemma_perm_word, lemma_word_bits, valid0, valid_cube};
use crate::walks::parity;
use crate::solvable::{
    cc_fault, cc_index, odd24, odd_perm, pair_fault, rho_fault, rho_upto, sigma_odd, solvable_fault, tau_fault,
};
use crate::swaps::{law_swap_parity, lemma_same_steps, swapped01};
use crate::kinds::{Corner, Edge, Piece24, PieceKind};
use crate::ops::{
    lemma_block_fields, ori_at, ori_balanced, ori_sum, pack_fn, pack_u128, pairs_assembled, perm_at,
    spec_pack, unpack_seq, unpack_u128,
};

verus! {

#[verifier::external_type_specification]
#[verifier::external_body]
pub struct ExThreadRng(ThreadRng);

/// Draws with `RngExt::random_range` from `0 ..= hi`, a range that is never
/// empty: the result is some value in that range.
#[verifier::external_body]
fn random_upto(rng: &mut ThreadRng, hi: usize) -> (r: usize)
    ensures
        r <= hi,
{
    rng.random_range(0..=hi)
}

/// Draws a boolean with `RngExt::random`; nothing is known of it.
#[verifier::external_body]
fn random_flag(rng: &mut ThreadRng) -> (r: bool) {
    rng.random::<bool>()
}

/// `p` reorders `0 .. l`: each of its `l` entries is below `l`, and no two
/// are equal.
pub open spec fn is_reordering(p: Seq<int>, l: nat) -> bool {
    &&& p.len() == l
    &&& forall|k: int| 0 <= k < l ==> 0 <= #[trigger] p[k] < l
    &&& forall|a: int, b: int| 0 <= a < l && 0 <= b < l && a != b ==> #[trigger] p[a] != #[trigger] p[b]
}

/// `t` holds the entries of `s` in another order.
pub open spec fn rearranges<T>(t: Seq<T>, s: Seq<T>) -> bool {
    &&& t.len() == s.len()
    &&& exists|p: Seq<int>| is_reordering(p, s.len()) && forall|k: int| 0 <= k < s.len() ==> #[trigger] t[k] == s[p[k]]
}

/// Swapping two entries of a rearrangement gives a rearrangement.
proof fn lemma_swap_rearranges<T>(t: Seq<T>, s: Seq<T>, i: int, j: int)
    requires
        rearranges(t, s),
        0 <= i < t.len(),
        0 <= j < t.len(),
    ensures
        rearranges(t.update(i, t[j]).update(j, t[i]), s),
{
    let p = choose|p: Seq<int>| is_reordering(p, s.len()) && forall|k: int| 0 <= k < s.len() ==> #[trigger] t[k] == s[p[k]];
    let q = p.update(i, p[j]).update(j, p[i]);
    let u = t.update(i, t[j]).update(j, t[i]);
    assert forall|a: int, b: int| 0 <= a < s.len() && 0 <= b < s.len() && a != b implies #[trigger] q[a] != #[trigger] q[b] by {
        let pa = if a == j { i } else if a == i { j } else { a };
        let pb = if b == j { i } else if b == i { j } else { b };
        assert(q[a] == p[pa]);
        assert(q[b] == p[pb]);
    }
    assert forall|k: int| 0 <= k < s.len() implies #[trigger] u[k] == s[q[k]] by {
        let pk = if k == j { i } else if k == i { j } else { k };
        assert(u[k] == t[pk]);
        assert(q[k] == p[pk]);
    }
    assert(is_reordering(q, s.len()));
}

/// Every sequence rearranges itself.
proof fn lemma_rearranges_self<T>(s: Seq<T>)
    ensures
        rearranges(s, s),
{
    let p = Seq::new(s.len(), |k: int| k);
    assert(is_reordering(p, s.len()));
    assert forall|k: int| 0 <= k < s.len() implies #[trigger] s[k] == s[p[k]] by {}
}

/// Draws for a Fisher-Yates shuffle of `l` entries: one per position, the
/// one at position `i` at most `i`.
pub open spec fn swap_draws(d: Seq<usize>, l: nat) -> bool {
    d.len() == l && forall|i: int| 0 <= i < l ==> #[trigger] d[i] <= i
}

/// The Fisher-Yates steps at positions `i`, `i - 1`, .., `1` applied to
/// `s`, one after the other: the step at position `i` exchanges the entries
/// at `i` and `d[i]`.
pub open spec fn fisher_yates<T>(s: Seq<T>, d: Seq<usize>, i: int) -> Seq<T>
    decreases i,
{
    if i <= 0 {
        s
    } else {
        fisher_yates(swapped(s, i, d[i] as int), d, i - 1)
    }
}

/// The number of positions among `1 ..= i` whose draw names another
/// position: the exchanges that the steps up to `i` make.
pub open spec fn exchanges(d: Seq<usize>, i: int) -> nat
    decreases i,
{
    if i <= 0 {
        0
    } else {
        exchanges(d, i - 1) + if d[i] as int != i {
            1nat
        } else {
            0nat
        }
    }
}

/// The shuffle of `s` by the draws `d`: all the Fisher-Yates steps, from
/// the last position down.
pub open spec fn shuffled<T>(s: Seq<T>, d: Seq<usize>) -> Seq<T> {
    fisher_yates(s, d, s.len() - 1)
}

/// The shuffle by `d` makes an odd number of exchanges.
pub open spec fn odd_exchanges(d: Seq<usize>) -> bool {
    exchanges(d, d.len() - 1) % 2 == 1
}

/// The reordering that the draws `d` make: where each entry of the
/// shuffle comes from.
pub open spec fn draw_order(d: Seq<usize>) -> Seq<int> {
    shuffled(positions(d.len()), d)
}

/// Steps applied alike to a sequence and to the positions its entries come
/// from keep each entry coming from its position.
proof fn lemma_steps_follow<T>(base: Seq<T>, s: Seq<T>, t: Seq<int>, d: Seq<usize>, i: int)
    requires
        s.len() == t.len(),
        i < s.len(),
        forall|k: int| 0 <= k <= i ==> #[trigger] d[k] <= k,
        i < d.len(),
        forall|k: int| 0 <= k < t.len() ==> 0 <= #[trigger] t[k] < base.len() && s[k] == base[t[k]],
    ensures
        fisher_yates(s, d, i).len() == s.len(),
        fisher_yates(t, d, i).len() == s.len(),
        forall|k: int|
            0 <= k < s.len() ==> 0 <= #[trigger] fisher_yates(t, d, i)[k] < base.len() && fisher_yates(s, d, i)[k]
                == base[fisher_yates(t, d, i)[k]],
    decreases i,
{
    if i > 0 {
        let j = d[i] as int;
        let s1 = swapped(s, i, j);
        let t1 = swapped(t, i, j);
        assert forall|k: int| 0 <= k < t1.len() implies 0 <= #[trigger] t1[k] < base.len() && s1[k] == base[t1[k]] by {
            let pk = if k == j { i } else if k == i { j } else { k };
            assert(s1[k] == s[pk] && t1[k] == t[pk]);
        }
        lemma_steps_follow(base, s1, t1, d, i - 1);
    }
}

/// The steps up to position `i` keep the entries distinct and change the
/// sign once for every exchange they make.
proof fn lemma_steps_sign(t: Seq<int>, d: Seq<usize>, i: int)
    requires
        distinct(t),
        i < t.len(),
        i < d.len(),
        forall|k: int| 0 <= k <= i ==> #[trigger] d[k] <= k,
    ensures
        distinct(fisher_yates(t, d, i)),
        fisher_yates(t, d, i).len() == t.len(),
        odd_reordering(fisher_yates(t, d, i)) == (odd_reordering(t) != (exchanges(d, i) % 2 == 1)),
    decreases i,
{
    if i > 0 {
        let j = d[i] as int;
        let t1 = swapped(t, i, j);
        if j != i {
            law_exchange_sign(t, j, i);
            assert(swapped(t, j, i) =~= t1);
        } else {
            assert(t1 =~= t);
        }
        crate::sign::lemma_swap_distinct(t, i, j);
        lemma_steps_sign(t1, d, i - 1);
    }
}

/// Draws the positions of a Fisher-Yates shuffle of `len` entries, from the
/// last position down: at position `i` a value in `0 ..= i`.
fn draw_swaps(rng: &mut ThreadRng, len: usize) -> (r: Vec<usize>)
    ensures
        swap_draws(r@, len as nat),
{
    let mut d: Vec<usize> = Vec::new();
    let mut z: usize = 0;
    while z < len
        invariant
            z <= len,
            d@.len() == z,
            forall|k: int| 0 <= k < z ==> #[trigger] d@[k] == 0,
        decreases len - z,
    {
        d.push(0);
        z = z + 1;
    }
    if len == 0 {
        return d;
    }
    let mut i: usize = len - 1;
    while i > 0
        invariant
            i < len,
            d@.len() == len,
            forall|k: int| 0 <= k < len ==> #[trigger] d@[k] <= k,
        decreases i,
    {
        let j = random_upto(rng, i);
        d.set(i, j);
        i = i - 1;
    }
    d
}

/// The Fisher-Yates steps given by the draws `draws`, from the last position
/// down: the step at position `i` exchanges the entries at `i` and
/// `draws[i]`.  Returns whether an odd number of exchanges was made.
pub fn apply_draws(slice: &mut [(u8, u8)], draws: &Vec<usize>) -> (r: bool)
    requires
        swap_draws(draws@, old(slice)@.len()),
    ensures
        final(slice)@ == shuffled(old(slice)@, draws@),
        r == odd_exchanges(draws@),
        rearranges(final(slice)@, old(slice)@),
        is_reordering(draw_order(draws@), old(slice)@.len()),
        forall|k: int| 0 <= k < old(slice)@.len() ==> #[trigger] final(slice)@[k] == old(slice)@[draw_order(draws@)[k]],
        r == odd_reordering(draw_order(draws@)),
{
    proof {
        let l = draws@.len();
        let pos = positions(l);
        lemma_positions_even(l);
        if l > 0 {
            lemma_steps_follow(old(slice)@, old(slice)@, pos, draws@, l - 1);
            lemma_steps_sign(pos, draws@, l - 1);
            let o = draw_order(draws@);
            assert forall|a: int, b: int| 0 <= a < l && 0 <= b < l && a != b implies #[trigger] o[a] != #[trigger] o[b] by {
                assert(distinct(o));
            }
        } else {
            assert(draw_order(draws@) =~= pos);
        }
    }
    let ghost s = slice@;
    let ghost d = draws@;
    proof {
        lemma_rearranges_self(s);
    }
    let mut parity = false;
    let len = slice.len();
    if len == 0 {
        return parity;
    }
    let mut i: usize = len - 1;
    while i > 0
        invariant
            slice@.len() == len,
            s.len() == len,
            d == draws@,
            swap_draws(d, len as nat),
            i < len,
            rearranges(slice@, s),
            fisher_yates(slice@, d, i as int) == shuffled(s, d),
            exchanges(d, len - 1) >= exchanges(d, i as int),
            parity == ((exchanges(d, len - 1) - exchanges(d, i as int)) % 2 == 1),
        decreases i,
    {
        let j = draws[i];
        assert(j <= i);
        let ghost before = slice@;
        if i != j {
            parity = !parity;
            let a = slice[i];
            let b = slice[j];
            proof {
                lemma_swap_rearranges(slice@, s, i as int, j as int);
            }
            slice[i] = b;
            slice[j] = a;
        }
        proof {
            assert(slice@ =~= swapped(before, i as int, j as int));
            assert(fisher_yates(before, d, i as int) == fisher_yates(slice@, d, i - 1));
        }
        i = i - 1;
    }
    proof {
        assert(exchanges(d, 0) == 0);
    }
    parity
}

/// Fisher-Yates shuffle of a slice of (perm, ori) pairs: draws a position
/// in `0 ..= i` for each position `i` from the last down, then makes the
/// exchanges.  Returns whether an odd number of exchanges was made.
pub fn shuffle(slice: &mut [(u8, u8)], rng: &mut ThreadRng) -> (r: bool)
    ensures
        rearranges(final(slice)@, old(slice)@),
        exists|p: Seq<int>|
            is_reordering(p, old(slice)@.len()) && (forall|k: int|
                0 <= k < old(slice)@.len() ==> #[trigger] final(slice)@[k] == old(slice)@[p[k]]) && r
                == odd_reordering(p),
        exists|d: Seq<usize>|
            swap_draws(d, old(slice)@.len()) && final(slice)@ == shuffled(old(slice)@, d) && r
                == odd_exchanges(d),
{
    let d = draw_swaps(rng, slice.len());
    apply_draws(slice, &d)
}

/// The pairs `(0, 0), (1, 0), .., (l - 1, 0)`: every piece at home.
pub open spec fn pairs_id(l: nat) -> Seq<(u8, u8)> {
    Seq::new(l, |k: int| (k as u8, 0u8))
}

/// The first fields of the pairs are a permutation of `0 .. l`.
pub open spec fn perm_pairs(s: Seq<(u8, u8)>, l: nat) -> bool {
    &&& s.len() == l
    &&& forall|k: int| 0 <= k < l ==> ((#[trigger] s[k]).0 as int) < l
    &&& forall|a: int, b: int| 0 <= a < l && 0 <= b < l && a != b ==> (#[trigger] s[a]).0 != (#[trigger] s[b]).0
}

/// The sum of the second fields of the first `m` pairs.
pub open spec fn ori_total(s: Seq<(u8, u8)>, m: nat) -> int
    decreases m,
{
    if m == 0 {
        0
    } else {
        ori_total(s, (m - 1) as nat) + s[m - 1].1
    }
}

fn identity_pairs(l: usize) -> (r: Vec<(u8, u8)>)
    requires
        l <= 24,
    ensures
        r@ == pairs_id(l as nat),
{
    let mut v: Vec<(u8, u8)> = Vec::new();
    let mut k: usize = 0;
    while k < l
        invariant
            k <= l <= 24,
            v@ == pairs_id(k as nat),
        decreases l - k,
    {
        v.push((k as u8, 0u8));
        k = k + 1;
        assert(v@ =~= pairs_id(k as nat));
    }
    v
}

/// A rearrangement of the pieces at home is a permutation with zero second fields.
proof fn lemma_rearranged_home(t: Seq<(u8, u8)>, l: nat)
    requires
        rearranges(t, pairs_id(l)),
        l <= 24,
    ensures
        perm_pairs(t, l),
        forall|k: int| 0 <= k < l ==> (#[trigger] t[k]).1 == 0,
{
    let p = choose|p: Seq<int>| is_reordering(p, l) && forall|k: int| 0 <= k < l ==> #[trigger] t[k] == pairs_id(l)[p[k]];
    assert forall|k: int| 0 <= k < l implies ((#[trigger] t[k]).0 as int) < l && t[k].1 == 0 && t[k].0 == p[k] by {
        assert(t[k] == pairs_id(l)[p[k]]);
    }
    assert forall|a: int, b: int| 0 <= a < l && 0 <= b < l && a != b implies (#[trigger] t[a]).0 != (#[trigger] t[b]).0 by {
        assert(t[a].0 == p[a] && t[b].0 == p[b]);
    }
}

/// Exchanging the first two pairs keeps a permutation.
proof fn lemma_swap01(s: Seq<(u8, u8)>, l: nat)
    requires
        perm_pairs(s, l),
        l >= 2,
    ensures
        perm_pairs(s.update(0, s[1]).update(1, s[0]), l),
{
    let t = s.update(0, s[1]).update(1, s[0]);
    assert forall|a: int, b: int| 0 <= a < l && 0 <= b < l && a != b implies (#[trigger] t[a]).0 != (#[trigger] t[b]).0 by {
        let pa = if a == 0 { 1 } else if a == 1 { 0 } else { a };
        let pb = if b == 0 { 1 } else if b == 1 { 0 } else { b };
        assert(t[a] == s[pa] && t[b] == s[pb]);
    }
    assert forall|k: int| 0 <= k < l implies ((#[trigger] t[k]).0 as int) < l by {
        let pk = if k == 0 { 1 } else if k == 1 { 0 } else { k };
        assert(t[k] == s[pk]);
    }
}

/// The blocks of the packed pairs of a permutation with second fields
/// below the modulus.
proof fn lemma_pack_pairs<P: PieceKind>(s: Seq<(u8, u8)>)
    requires
        perm_pairs(s, P::spec_len()),
        forall|k: int| 0 <= k < s.len() ==> ((#[trigger] s[k]).1 as int) < P::spec_mod(),
    ensures
        spec_pack::<P>(s) >> ((5 * P::spec_len()) as u128) == 0,
        forall|k: int| 0 <= k < s.len() ==> (#[trigger] blk(spec_pack::<P>(s), k) & P::spec_perm()) == s[k].0,
        forall|k: int| 0 <= k < s.len() ==> #[trigger] ori_at::<P>(spec_pack::<P>(s), k) == s[k].1,
        P::spec_perm() != 31 ==> forall|k: int| 0 <= k < s.len() ==> (#[trigger] blk(spec_pack::<P>(s), k) >> P::spec_shift()) == s[k].1,
        P::spec_perm() == 31 ==> forall|k: int| 0 <= k < s.len() ==> #[trigger] blk(spec_pack::<P>(s), k) == s[k].0,
{
    P::lemma_shape();
    let f = pack_fn::<P>(s);
    assert forall|i: int| 0 <= i < P::spec_len() implies #[trigger] f(i) < 32 by {
        lemma_block_fields(0, s[i].0 as u128, s[i].1 as u128, P::spec_perm(), P::spec_ori(), P::spec_shift());
    }
    lemma_build(f, P::spec_len());
    let w = spec_pack::<P>(s);
    assert forall|k: int| 0 <= k < s.len() implies (#[trigger] blk(w, k) & P::spec_perm()) == s[k].0
        && ori_at::<P>(w, k) == s[k].1
        && (P::spec_perm() != 31 ==> (blk(w, k) >> P::spec_shift()) == s[k].1)
        && (P::spec_perm() == 31 ==> blk(w, k) == s[k].0) by {
        assert(blk(w, k) == f(k));
        lemma_block_fields(0, s[k].0 as u128, s[k].1 as u128, P::spec_perm(), P::spec_ori(), P::spec_shift());
    }
    assert forall|k: int| 0 <= k < s.len() implies #[trigger] ori_at::<P>(w, k) == s[k].1 by {
        assert(blk(w, k) & P::spec_perm() == s[k].0);
    }
    if P::spec_perm() != 31 {
        assert forall|k: int| 0 <= k < s.len() implies (#[trigger] blk(w, k) >> P::spec_shift()) == s[k].1 by {
            assert(blk(w, k) & P::spec_perm() == s[k].0);
        }
    } else {
        assert forall|k: int| 0 <= k < s.len() implies #[trigger] blk(w, k) == s[k].0 by {
            assert(blk(w, k) & P::spec_perm() == s[k].0);
        }
    }
}

/// The orientation sum of a packed orbit is that of its pairs.
proof fn lemma_ori_total<P: PieceKind>(w: u128, s: Seq<(u8, u8)>, m: nat)
    requires
        m <= s.len(),
        forall|k: int| 0 <= k < s.len() ==> #[trigger] ori_at::<P>(w, k) == s[k].1,
    ensures
        ori_sum::<P>(w, m) == ori_total(s, m),
    decreases m,
{
    if m > 0 {
        lemma_ori_total::<P>(w, s, (m - 1) as nat);
        assert(ori_at::<P>(w, m - 1) == s[m - 1].1);
    }
}


/// The sum of the first `m` draws.
pub open spec fn draw_total(t: Seq<usize>, m: nat) -> nat
    decreases m,
{
    if m == 0 {
        0
    } else {
        draw_total(t, (m - 1) as nat) + t[m - 1] as nat
    }
}

/// The corner pairs drawn by `sw` and `tw`: the corners shuffled by `sw`,
/// the first seven twisted by `tw`, the last twisted to make the sum a
/// multiple of 3.
pub open spec fn corner_pairs(sw: Seq<usize>, tw: Seq<usize>) -> Seq<(u8, u8)> {
    let s = shuffled(pairs_id(8), sw);
    Seq::new(
        8,
        |i: int|
            (s[i].0, if i < 7 {
                tw[i] as u8
            } else {
                ((3 - draw_total(tw, 7) % 3) % 3) as u8
            }),
    )
}

/// The corner orbit drawn by `sw` and `tw`.
pub open spec fn corner_word(sw: Seq<usize>, tw: Seq<usize>) -> u128 {
    spec_pack::<Corner>(corner_pairs(sw, tw))
}

/// Draws for the corners: a shuffle of 8 and seven twists below 3.
pub open spec fn corner_draws(sw: Seq<usize>, tw: Seq<usize>) -> bool {
    swap_draws(sw, 8) && tw.len() == 7 && forall|i: int| 0 <= i < 7 ==> #[trigger] tw[i] <= 2
}

/// The corners shuffled by `swaps`, the first seven twisted by `twists`
/// and the last so that the orientations add up to a multiple of 3.
fn corners_from(swaps: &Vec<usize>, twists: &Vec<usize>) -> (w: u128)
    requires
        corner_draws(swaps@, twists@),
    ensures
        w == corner_word(swaps@, twists@),
        ori_valid(w, 8, 7, 3, 3),
        ori_balanced::<Corner>(w),
{
    let mut c = identity_pairs(8);
    let ghost home = c@;
    apply_draws(c.as_mut_slice(), swaps);
    let ghost sh = c@;
    assert(sh == shuffled(pairs_id(8), swaps@));
    proof {
        lemma_rearranged_home(c@, 8);
    }
    let mut sum: usize = 0;
    let mut i: usize = 0;
    while i < 7
        invariant
            i <= 7,
            perm_pairs(c@, 8),
            forall|k: int| 0 <= k < i ==> ((#[trigger] c@[k]).1 as int) < 3,
            forall|k: int| i <= k < 8 ==> (#[trigger] c@[k]).1 == 0,
            sum == ori_total(c@, i as nat),
            sum <= 2 * i,
            corner_draws(swaps@, twists@),
            sum == draw_total(twists@, i as nat),
            forall|k: int| 0 <= k < 8 ==> (#[trigger] c@[k]).0 == sh[k].0,
            forall|k: int| 0 <= k < i ==> (#[trigger] c@[k]).1 == twists@[k] as u8,
        decreases 7 - i,
    {
        let o = twists[i] as u8;
        let ghost before = c@;
        let p = c[i].0;
        c.set(i, (p, o));
        proof {
            assert forall|m: nat| m <= i implies ori_total(c@, m) == ori_total(before, m) by {
                lemma_total_prefix(c@, before, m);
            }
            assert(perm_pairs(c@, 8)) by {
                assert forall|a: int, b: int| 0 <= a < 8 && 0 <= b < 8 && a != b implies (#[trigger] c@[a]).0 != (#[trigger] c@[b]).0 by {
                    assert(c@[a].0 == before[a].0 && c@[b].0 == before[b].0);
                }
                assert forall|k: int| 0 <= k < 8 implies ((#[trigger] c@[k]).0 as int) < 8 by {
                    assert(c@[k].0 == before[k].0);
                }
            }
        }
        sum = sum + o as usize;
        i = i + 1;
    }
    let last = ((3 - sum % 3) % 3) as u8;
    let ghost before = c@;
    let p = c[7].0;
    c.set(7, (p, last));
    proof {
        lemma_total_prefix(c@, before, 7);
        assert(perm_pairs(c@, 8)) by {
            assert forall|a: int, b: int| 0 <= a < 8 && 0 <= b < 8 && a != b implies (#[trigger] c@[a]).0 != (#[trigger] c@[b]).0 by {
                assert(c@[a].0 == before[a].0 && c@[b].0 == before[b].0);
            }
            assert forall|k: int| 0 <= k < 8 implies ((#[trigger] c@[k]).0 as int) < 8 by {
                assert(c@[k].0 == before[k].0);
            }
        }
        assert(ori_total(c@, 8) == sum + last);
        assert((sum + (3 - sum % 3) % 3) % 3 == 0);
        assert(c@ =~= corner_pairs(swaps@, twists@));
    }
    let w = pack_u128::<Corner>(c.as_slice());
    proof {
        lemma_pack_pairs::<Corner>(c@);
        lemma_ori_total::<Corner>(w, c@, 8);
        assert forall|a: int, b: int| 0 <= a < 8 && 0 <= b < 8 && a != b implies #[trigger] (blk(w, a) & 7) != #[trigger] (blk(w, b) & 7) by {
            assert((blk(w, a) & 7) == c@[a].0 && (blk(w, b) & 7) == c@[b].0);
        }
        assert forall|k: int| 0 <= k < 8 implies #[trigger] (blk(w, k) & 7) < 8 && (blk(w, k) >> 3) < 3 by {
            assert((blk(w, k) & 7) == c@[k].0);
        }
    }
    w
}

/// Pairs that agree on the first `m` entries have the same partial orientation sums.
proof fn lemma_total_prefix(s: Seq<(u8, u8)>, t: Seq<(u8, u8)>, m: nat)
    requires
        m <= s.len(),
        m <= t.len(),
        forall|k: int| 0 <= k < m ==> s[k] == t[k],
    ensures
        ori_total(s, m) == ori_total(t, m),
    decreases m,
{
    if m > 0 {
        lemma_total_prefix(s, t, (m - 1) as nat);
    }
}


/// The number of raised flags among the first `m`.
pub open spec fn flag_total(f: Seq<bool>, m: nat) -> nat
    decreases m,
{
    if m == 0 {
        0
    } else {
        flag_total(f, (m - 1) as nat) + if f[m - 1] {
            1nat
        } else {
            0nat
        }
    }
}

/// The single edges shuffled by `sw`, the first two exchanged when the
/// parity of the shuffle differs from `odd`.
pub open spec fn edge_order(sw: Seq<usize>, odd: bool) -> Seq<(u8, u8)> {
    let s = shuffled(pairs_id(12), sw);
    if odd_perm(spec_pack::<Edge>(s), 15, 12) != odd {
        swapped(s, 0, 1)
    } else {
        s
    }
}

/// The single-edge pairs drawn by `sw` and `fl`: the edges in the order of
/// `edge_order`, the first eleven flipped where `fl` says, the last so that
/// the flips are even in number.
pub open spec fn edge_pairs(sw: Seq<usize>, fl: Seq<bool>, odd: bool) -> Seq<(u8, u8)> {
    let s = edge_order(sw, odd);
    Seq::new(
        12,
        |i: int|
            (s[i].0, if i < 11 {
                if fl[i] {
                    1u8
                } else {
                    0u8
                }
            } else {
                (flag_total(fl, 11) % 2) as u8
            }),
    )
}

/// The single-edge orbit drawn by `sw` and `fl` with parity `odd`.
pub open spec fn edge_word(sw: Seq<usize>, fl: Seq<bool>, odd: bool) -> u128 {
    spec_pack::<Edge>(edge_pairs(sw, fl, odd))
}

/// Single edges shuffled by `swaps`, with the permutation parity made
/// equal to `odd` by exchanging the first two edges when needed, the first
/// eleven flipped where `flips` says and the last so that the
/// orientations add up to a multiple of 2.
fn edges_from(swaps: &Vec<usize>, flips: &Vec<bool>, odd: bool) -> (w: u128)
    requires
        swap_draws(swaps@, 12),
        flips@.len() == 11,
    ensures
        w == edge_word(swaps@, flips@, odd),
        ori_valid(w, 12, 15, 4, 2),
        ori_balanced::<Edge>(w),
        odd_perm(w, 15, 12) == odd,
{
    let mut c = identity_pairs(12);
    apply_draws(c.as_mut_slice(), swaps);
    let ghost sh = c@;
    proof {
        lemma_rearranged_home(c@, 12);
    }
    let probe = pack_u128::<Edge>(c.as_slice());
    proof {
        lemma_pack_pairs::<Edge>(c@);
        assert forall|a: int, b: int| 0 <= a < 12 && 0 <= b < 12 && a != b implies #[trigger] step(probe, 15, a) != #[trigger] step(probe, 15, b) by {
            assert((blk(probe, a) & 15) == c@[a].0 && (blk(probe, b) & 15) == c@[b].0);
        }
        assert forall|k: int| 0 <= k < 12 implies 0 <= #[trigger] step(probe, 15, k) < 12 by {
            assert((blk(probe, k) & 15) == c@[k].0);
        }
    }
    let exchange = parity::<Edge>(probe) != odd;
    if exchange {
        let a = c[0];
        let b = c[1];
        proof {
            lemma_swap01(c@, 12);
        }
        c.set(0, b);
        c.set(1, a);
        assert(c@ =~= swapped(sh, 0, 1));
    }
    let ghost cs = c@;
    assert(forall|k: int| 0 <= k < 12 ==> (#[trigger] c@[k]).1 == 0);
    let mut sum: usize = 0;
    let mut i: usize = 0;
    while i < 11
        invariant
            i <= 11,
            perm_pairs(c@, 12),
            forall|k: int| 0 <= k < i ==> ((#[trigger] c@[k]).1 as int) < 2,
            forall|k: int| i <= k < 12 ==> (#[trigger] c@[k]).1 == 0,
            sum == ori_total(c@, i as nat),
            sum <= i,
            forall|k: int| 0 <= k < 12 ==> (#[trigger] c@[k]).0 == cs[k].0,
            flips@.len() == 11,
            sum == flag_total(flips@, i as nat),
            forall|k: int| 0 <= k < i ==> (#[trigger] c@[k]).1 == (if flips@[k] { 1u8 } else { 0u8 }),
        decreases 11 - i,
    {
        let o: u8 = if flips[i] { 1 } else { 0 };
        let ghost before = c@;
        let p = c[i].0;
        c.set(i, (p, o));
        proof {
            lemma_total_prefix(c@, before, i as nat);
            assert(perm_pairs(c@, 12)) by {
                assert forall|a: int, b: int| 0 <= a < 12 && 0 <= b < 12 && a != b implies (#[trigger] c@[a]).0 != (#[trigger] c@[b]).0 by {
                    assert(c@[a].0 == before[a].0 && c@[b].0 == before[b].0);
                }
                assert forall|k: int| 0 <= k < 12 implies ((#[trigger] c@[k]).0 as int) < 12 by {
                    assert(c@[k].0 == before[k].0);
                }
            }
        }
        sum = sum + o as usize;
        i = i + 1;
    }
    let last = (sum % 2) as u8;
    let ghost before = c@;
    let p = c[11].0;
    c.set(11, (p, last));
    proof {
        lemma_total_prefix(c@, before, 11);
        assert(perm_pairs(c@, 12)) by {
            assert forall|a: int, b: int| 0 <= a < 12 && 0 <= b < 12 && a != b implies (#[trigger] c@[a]).0 != (#[trigger] c@[b]).0 by {
                assert(c@[a].0 == before[a].0 && c@[b].0 == before[b].0);
            }
            assert forall|k: int| 0 <= k < 12 implies ((#[trigger] c@[k]).0 as int) < 12 by {
                assert(c@[k].0 == before[k].0);
            }
        }
        assert(ori_total(c@, 12) == sum + last);
        assert(sh == shuffled(pairs_id(12), swaps@));
        assert(cs == edge_order(swaps@, odd));
        assert(c@ =~= edge_pairs(swaps@, flips@, odd));
    }
    let w = pack_u128::<Edge>(c.as_slice());
    proof {
        lemma_pack_pairs::<Edge>(c@);
        lemma_ori_total::<Edge>(w, c@, 12);
        assert forall|a: int, b: int| 0 <= a < 12 && 0 <= b < 12 && a != b implies #[trigger] (blk(w, a) & 15) != #[trigger] (blk(w, b) & 15) by {
            assert((blk(w, a) & 15) == c@[a].0 && (blk(w, b) & 15) == c@[b].0);
        }
        assert forall|k: int| 0 <= k < 12 implies #[trigger] (blk(w, k) & 15) < 12 && (blk(w, k) >> 4) < 2 by {
            assert((blk(w, k) & 15) == c@[k].0);
        }
        assert forall|k: int| 0 <= k < 12 implies #[trigger] step(w, 15, k) == cs[k].0 by {
            assert((blk(w, k) & 15) == c@[k].0);
        }
        assert(is_perm(w, 15, 12)) by {
            assert forall|a: int, b: int| 0 <= a < 12 && 0 <= b < 12 && a != b implies #[trigger] step(w, 15, a) != #[trigger] step(w, 15, b) by {
                assert((blk(w, a) & 15) != (blk(w, b) & 15));
            }
        }
        if exchange {
            assert(swapped01(probe, w, 15, 12));
            law_swap_parity(probe, w, 15, 12);
        } else {
            lemma_same_steps(probe, w, 15, 12);
        }
    }
    w
}

/// The permutation word of the pairs of a permutation of `0 .. 24`.
proof fn lemma_pack24(s: Seq<(u8, u8)>)
    requires
        perm_pairs(s, 24),
        forall|k: int| 0 <= k < 24 ==> (#[trigger] s[k]).1 == 0,
    ensures
        perm_valid(spec_pack::<Piece24>(s), 24),
        forall|k: int| 0 <= k < 24 ==> #[trigger] blk(spec_pack::<Piece24>(s), k) == s[k].0,
{
    lemma_pack_pairs::<Piece24>(s);
    let w = spec_pack::<Piece24>(s);
    assert forall|a: int, b: int| 0 <= a < 24 && 0 <= b < 24 && a != b implies #[trigger] blk(w, a) != #[trigger] blk(w, b) by {
        assert(blk(w, a) == s[a].0 && blk(w, b) == s[b].0);
    }
}

/// The 24-piece orbit shuffled by `sw`.
pub open spec fn orbit_word(sw: Seq<usize>) -> u128 {
    spec_pack::<Piece24>(shuffled(pairs_id(24), sw))
}

/// A 24-piece orbit shuffled by `swaps`.
fn orbit_from(swaps: &Vec<usize>) -> (w: u128)
    requires
        swap_draws(swaps@, 24),
    ensures
        w == orbit_word(swaps@),
        perm_valid(w, 24),
{
    let mut c = identity_pairs(24);
    apply_draws(c.as_mut_slice(), swaps);
    proof {
        lemma_rearranged_home(c@, 24);
        lemma_pack24(c@);
    }
    pack_u128::<Piece24>(c.as_slice())
}

/// The pairs of a 24-piece permutation word.
proof fn lemma_unpack24(w: u128)
    requires
        perm_valid(w, 24),
    ensures
        perm_pairs(unpack_seq::<Piece24>(w), 24),
        forall|k: int| 0 <= k < 24 ==> (#[trigger] unpack_seq::<Piece24>(w)[k]).1 == 0,
        forall|k: int| 0 <= k < 24 ==> (#[trigger] unpack_seq::<Piece24>(w)[k]).0 == blk(w, k),
{
    let s = unpack_seq::<Piece24>(w);
    assert forall|k: int| 0 <= k < 24 implies (#[trigger] s[k]).1 == 0 && s[k].0 == blk(w, k) by {
        lemma_blk_small(w, k);
        let x = blk(w, k);
        assert(x < 32 ==> x & 31 == x && (x >> 0u128) & 0 == 0) by (bit_vector);
    }
    assert forall|a: int, b: int| 0 <= a < 24 && 0 <= b < 24 && a != b implies (#[trigger] s[a]).0 != (#[trigger] s[b]).0 by {
        assert(blk(w, a) != blk(w, b));
    }
}

/// Facts on flipping the lowest bit.
proof fn lemma_flip(v: u8, i: usize)
    ensures
        (v ^ 1u8) ^ 1u8 == v,
        v % 2 == 0 && v < 255 ==> v ^ 1u8 == v + 1,
        v % 2 == 1 ==> v ^ 1u8 == v - 1,
        i % 2 == 0 && i < 100 ==> i ^ 1usize == i + 1,
        i % 2 == 1 ==> i ^ 1usize == i - 1,
{
    assert((v ^ 1u8) ^ 1u8 == v && (v % 2 == 0 && v < 255 ==> v ^ 1u8 == v + 1) && (v % 2 == 1 ==> v
        ^ 1u8 == v - 1) && (i % 2 == 0 && i < 100 ==> i ^ 1usize == i + 1) && (i % 2 == 1 ==> i
        ^ 1usize == i - 1)) by (bit_vector);
}

/// The 24-piece word `w` with its permutation parity made equal to `odd`:
/// `w` itself when it has that parity, else `w` with the pieces at
/// positions 0 and 1 exchanged.
pub open spec fn fixed_word(w: u128, odd: bool) -> u128 {
    if odd24(w) == odd {
        w
    } else {
        spec_pack::<Piece24>(swapped(unpack_seq::<Piece24>(w), 0, 1))
    }
}

/// A 24-piece permutation word with the permutation parity made equal to
/// `odd` by exchanging the pieces at positions 0 and 1 when needed.
fn fix_word_parity(w: u128, odd: bool) -> (r: u128)
    requires
        perm_valid(w, 24),
    ensures
        r == fixed_word(w, odd),
        perm_valid(r, 24),
        odd24(r) == odd,
        pairs_assembled::<Piece24>(w) ==> pairs_assembled::<Piece24>(r),
{
    proof {
        lemma_perm_word(w, 24);
    }
    if parity::<Piece24>(w) == odd {
        return w;
    }
    let mut c = unpack_u128::<Piece24>(w);
    proof {
        lemma_unpack24(w);
    }
    let a = c[0];
    let b = c[1];
    let ghost before = c@;
    proof {
        lemma_swap01(c@, 24);
    }
    c.set(0, b);
    c.set(1, a);
    assert(c@ =~= swapped(unpack_seq::<Piece24>(w), 0, 1));
    proof {
        assert forall|k: int| 0 <= k < 24 implies (#[trigger] c@[k]).1 == 0 by {
            assert(k == 0 || k == 1 || c@[k] == before[k]);
        }
        lemma_pack24(c@);
    }
    let r = pack_u128::<Piece24>(c.as_slice());
    proof {
        lemma_perm_word(r, 24);
        assert(blk(r, 0) == blk(w, 1) && blk(r, 1) == blk(w, 0));
        assert forall|i: int| 2 <= i < 24 implies #[trigger] step(r, 31, i) == step(w, 31, i) by {
            assert(c@[i] == before[i]);
        }
        law_swap_parity(w, r, 31, 24);
        if pairs_assembled::<Piece24>(w) {
            assert forall|i: int| 0 <= i < 24 implies #[trigger] ((perm_at::<Piece24>(r, i) as u8) ^ 1u8) == (perm_at::<Piece24>(
                r,
                (i as usize ^ 1usize) as int,
            ) as u8) by {
                let j = (i as usize ^ 1usize) as int;
                lemma_flip(0, i as usize);
                lemma_flip(0, 0);
                lemma_flip(0, 1);
                assert(0 <= j < 24);
                assert(((perm_at::<Piece24>(w, 0) as u8) ^ 1u8) == (perm_at::<Piece24>(w, 1) as u8));
                assert(((perm_at::<Piece24>(w, 1) as u8) ^ 1u8) == (perm_at::<Piece24>(w, 0) as u8));
                assert(((perm_at::<Piece24>(w, i) as u8) ^ 1u8) == (perm_at::<Piece24>(w, j) as u8));
                lemma_flip(perm_at::<Piece24>(w, 0) as u8, 0);
                lemma_flip(perm_at::<Piece24>(w, 1) as u8, 0);
                assert(perm_at::<Piece24>(r, i) == blk(r, i));
                assert(perm_at::<Piece24>(w, i) == blk(w, i));
            }
        }
    }
    r
}


/// Entries `2 d` and `2 d + 1` of `c` hold the two halves `2 p` and
/// `2 p + 1` of the pair `p` named by `pairs[d]`, in either order.
pub open spec fn pair_placed(c: Seq<(u8, u8)>, pairs: Seq<(u8, u8)>, d: int) -> bool {
    let p = pairs[d].0 as int;
    ||| (c[2 * d].0 == 2 * p && c[2 * d + 1].0 == 2 * p + 1)
    ||| (c[2 * d].0 == 2 * p + 1 && c[2 * d + 1].0 == 2 * p)
}

/// The pieces of a coupled-edge orbit laid out from the pairs `pairs`:
/// entries `2 d` and `2 d + 1` hold the halves `2 p` and `2 p + 1` of the
/// pair `p` named by `pairs[d]`, exchanged when `fl[d]` is raised.
pub open spec fn pairs_layout(pairs: Seq<(u8, u8)>, fl: Seq<bool>) -> Seq<(u8, u8)> {
    Seq::new(
        24,
        |k: int|
            {
                let p = pairs[k / 2].0;
                if (k % 2 == 0) == fl[k / 2] {
                    ((2 * p + 1) as u8, 0u8)
                } else {
                    ((2 * p) as u8, 0u8)
                }
            },
    )
}

/// The coupled-edge orbit drawn by `sw` and `fl`: the 12 pairs shuffled by
/// `sw`, each laid in the order `fl` says.
pub open spec fn pair_word(sw: Seq<usize>, fl: Seq<bool>) -> u128 {
    spec_pack::<Piece24>(pairs_layout(shuffled(pairs_id(12), sw), fl))
}

/// A coupled-edge orbit: the 12 pairs shuffled by `swaps`, each laid in
/// the order that `flips` says.
fn pairs_from(swaps: &Vec<usize>, flips: &Vec<bool>) -> (w: u128)
    requires
        swap_draws(swaps@, 12),
        flips@.len() == 12,
    ensures
        w == pair_word(swaps@, flips@),
        perm_valid(w, 24),
        pairs_assembled::<Piece24>(w),
{
    let mut pairs = identity_pairs(12);
    apply_draws(pairs.as_mut_slice(), swaps);
    proof {
        lemma_rearranged_home(pairs@, 12);
    }
    let mut c: Vec<(u8, u8)> = Vec::new();
    let mut dst: usize = 0;
    while dst < 12
        invariant
            dst <= 12,
            perm_pairs(pairs@, 12),
            c@.len() == 2 * dst,
            forall|k: int| 0 <= k < c@.len() ==> (#[trigger] c@[k]).1 == 0,
            forall|d: int| 0 <= d < dst ==> #[trigger] pair_placed(c@, pairs@, d),
            flips@.len() == 12,
            forall|k: int| 0 <= k < c@.len() ==> #[trigger] c@[k] == pairs_layout(pairs@, flips@)[k],
        decreases 12 - dst,
    {
        let src = pairs[dst].0;
        let ghost before = c@;
        if flips[dst] {
            c.push((2 * src + 1, 0));
            c.push((2 * src, 0));
        } else {
            c.push((2 * src, 0));
            c.push((2 * src + 1, 0));
        }
        proof {
            assert forall|d: int| 0 <= d < dst + 1 implies #[trigger] pair_placed(c@, pairs@, d) by {
                if d < dst {
                    assert(pair_placed(before, pairs@, d));
                    assert(c@[2 * d] == before[2 * d] && c@[2 * d + 1] == before[2 * d + 1]);
                }
            }
        }
        dst = dst + 1;
    }
    proof {
        assert forall|k: int| 0 <= k < 24 implies ((#[trigger] c@[k]).0 as int) < 24 && (c@[k].0 as int) / 2 == pairs@[k / 2].0 by {
            assert(pair_placed(c@, pairs@, k / 2));
        }
        assert forall|a: int, b: int| 0 <= a < 24 && 0 <= b < 24 && a != b implies (#[trigger] c@[a]).0 != (#[trigger] c@[b]).0 by {
            assert(pair_placed(c@, pairs@, a / 2));
            assert(pair_placed(c@, pairs@, b / 2));
            assert((c@[a].0 as int) / 2 == pairs@[a / 2].0);
            assert((c@[b].0 as int) / 2 == pairs@[b / 2].0);
        }
        lemma_pack24(c@);
        lemma_pack_pairs::<Piece24>(c@);
        assert(c@ =~= pairs_layout(pairs@, flips@));
    }
    let w = pack_u128::<Piece24>(c.as_slice());
    proof {
        assert forall|i: int| 0 <= i < 24 implies #[trigger] ((perm_at::<Piece24>(w, i) as u8) ^ 1u8) == (perm_at::<Piece24>(
            w,
            (i as usize ^ 1usize) as int,
        ) as u8) by {
            lemma_flip(c@[i].0, i as usize);
            assert(pair_placed(c@, pairs@, i / 2));
            assert((blk(w, i) & 31) == c@[i].0);
            let j = (i as usize ^ 1usize) as int;
            assert(j / 2 == i / 2);
            assert((blk(w, j) & 31) == c@[j].0);
        }
    }
    w
}

/// Word `1 + a * k + b` of the `k` by `k` block of center words lies in
/// the block, and it holds center-corners, `(a * k + b) % (k + 1) == 0`,
/// exactly when `a == b`.
proof fn lemma_cell(a: int, b: int, k: int)
    requires
        0 <= a < k,
        0 <= b < k,
    ensures
        0 <= a * k + b < k * k,
        (a * k + b) % (k + 1) == 0 <==> a == b,
{
    assert(0 <= a * k + b < k * k) by (nonlinear_arith)
        requires
            0 <= a < k,
            0 <= b < k,
    ;
    if a == b {
        assert(a * k + b == a * (k + 1)) by (nonlinear_arith)
            requires
                a == b,
        ;
        vstd::arithmetic::div_mod::lemma_mod_multiples_basic(a, k + 1);
    } else if (a * k + b) % (k + 1) == 0 {
        let m = (a * k + b) / (k + 1);
        vstd::arithmetic::div_mod::lemma_fundamental_div_mod(a * k + b, k + 1);
        assert(a * k + b == m * k + m) by (nonlinear_arith)
            requires
                a * k + b == (k + 1) * m + 0,
        ;
        assert(0 <= m < k) by (nonlinear_arith)
            requires
                a * k + b == m * k + m,
                0 <= a * k + b < k * k,
                k > 0,
        ;
        vstd::arithmetic::div_mod::lemma_fundamental_div_mod_converse(a * k + b, k, a, b);
        vstd::arithmetic::div_mod::lemma_fundamental_div_mod_converse(m * k + m, k, m, m);
    }
}

/// Every center-corner word of the first `k` by `k` block of `c` packs a
/// permutation of parity `s`.
pub open spec fn diag_parities(c: Seq<u128>, k: nat, s: bool) -> bool {
    forall|m: int| 1 <= m < 1 + k * k && (m - 1) % ((k + 1) as int) == 0 ==> odd24(#[trigger] c[m]) == s
}

/// Every center-edge word of the first `k` by `k` block of `c` packs an
/// even permutation.
pub open spec fn offdiag_even(c: Seq<u128>, k: nat) -> bool {
    forall|m: int| 1 <= m < 1 + k * k && (m - 1) % ((k + 1) as int) != 0 ==> !odd24(#[trigger] c[m])
}

/// Center-corners of the parity of the corners raise no fault.
proof fn lemma_cc_none(c: Seq<u128>, k: nat, kk: nat)
    requires
        diag_parities(c, k, sigma_odd(c)),
    ensures
        cc_fault(c, k, kk) is None,
    decreases k + 1 - kk,
{
    if 1 <= kk <= k {
        let a = k - kk;
        lemma_cell(a, a, k as int);
        assert(a * k + a == a * (k + 1)) by (nonlinear_arith);
        assert(cc_index(kk, k) == 1 + a * k + a);
        assert(odd24(c[cc_index(kk, k)]) == sigma_odd(c));
        lemma_cc_none(c, k, kk + 1);
    }
}

/// The center-edge parity of a ring is even when every center-edge word is.
proof fn lemma_rho_even(c: Seq<u128>, k: nat, kk: nat, x: nat)
    requires
        offdiag_even(c, k),
        1 <= kk <= k,
        x <= kk,
    ensures
        !rho_upto(c, k, kk, x),
    decreases x,
{
    if x > 1 {
        let y = (x - 1) as nat;
        lemma_rho_even(c, k, kk, y);
        lemma_cell(k - kk, k - y, k as int);
        lemma_cell(k - y, k - kk, k as int);
        assert(!odd24(c[1 + (k - kk) * k + (k - y)]));
        assert(!odd24(c[1 + (k - y) * k + (k - kk)]));
    }
}

/// Rings whose center-edges are all even raise no fault.
proof fn lemma_rho_none(c: Seq<u128>, k: nat, kk: nat)
    requires
        offdiag_even(c, k),
    ensures
        rho_fault(c, k, kk) is None,
    decreases k + 1 - kk,
{
    if 1 <= kk <= k {
        lemma_rho_even(c, k, kk, kk);
        lemma_rho_none(c, k, kk + 1);
    }
}

/// The center-edge parity of a ring reads only the first `k` by `k` block.
proof fn lemma_rho_agree(c: Seq<u128>, d: Seq<u128>, k: nat, kk: nat, x: nat)
    requires
        1 <= kk <= k,
        x <= kk,
        forall|m: int| 0 <= m < 1 + k * k ==> #[trigger] c[m] == d[m],
    ensures
        rho_upto(c, k, kk, x) == rho_upto(d, k, kk, x),
    decreases x,
{
    if x > 1 {
        let y = (x - 1) as nat;
        lemma_rho_agree(c, d, k, kk, y);
        lemma_cell(k - kk, k - y, k as int);
        lemma_cell(k - y, k - kk, k as int);
        assert(c[1 + (k - kk) * k + (k - y)] == d[1 + (k - kk) * k + (k - y)]);
        assert(c[1 + (k - y) * k + (k - kk)] == d[1 + (k - y) * k + (k - kk)]);
    }
}

/// Coupled-edge words whose pairs are all assembled raise no fault.
proof fn lemma_pair_none(c: Seq<u128>, e: nat, end: nat)
    requires
        forall|m: int| e <= m < end ==> pairs_assembled::<Piece24>(#[trigger] c[m]),
    ensures
        pair_fault(c, e, end) is None,
    decreases end - e,
{
    if e < end {
        assert(pairs_assembled::<Piece24>(c[e as int]));
        lemma_pair_none(c, e + 1, end);
    }
}

/// Coupled edges of the parity that the corners and a ring's center-edges
/// and wings ask for raise no fault.
proof fn lemma_tau_none(c: Seq<u128>, k: nat, kk: nat)
    requires
        forall|j: nat| 1 <= j <= k ==> odd24(c[1 + k * k + k - j]) == (sigma_odd(c) ^ (#[trigger] rho_upto(c, k, j, j) ^ odd24(
            c[1 + k * k + k + j - 1],
        ))),
    ensures
        tau_fault(c, k, kk) is None,
    decreases k + 1 - kk,
{
    if 1 <= kk <= k {
        assert(rho_upto(c, k, kk, kk) == rho_upto(c, k, kk, kk));
        lemma_tau_none(c, k, kk + 1);
    }
}

/// The orientations of an orbit whose orientation fields are all zero add
/// up to zero.
proof fn lemma_ori_zero<P: PieceKind>(w: u128, m: nat)
    requires
        forall|i: int| 0 <= i < m ==> #[trigger] ori_at::<P>(w, i) == 0,
    ensures
        ori_sum::<P>(w, m) == 0,
    decreases m,
{
    if m > 0 {
        lemma_ori_zero::<P>(w, (m - 1) as nat);
        assert(ori_at::<P>(w, m - 1) == 0);
    }
}

/// The solved cube is solvable: no condition of the solvability theorem
/// fails on it, for every dimension.
pub proof fn law_solved_solvable(n: nat)
    requires
        n >= 2,
    ensures
        solvable_fault(n, identity_cube(n)) is None,
{
    let c = identity_cube(n);
    let k = k_max(n);
    lemma_id_words();
    crate::laws::lemma_word0_id(n);
    crate::roundtrip::lemma_small_masks(0);
    assert forall|j: int| 0 <= j < 24 implies #[trigger] step(ID_24, 31, j) == j by {
        crate::roundtrip::lemma_small_masks(blk(ID_24, j));
    }
    crate::swaps::lemma_identity_even(ID_24, 31, 24);
    assert forall|j: int| 0 <= j < 8 implies #[trigger] step(ID_CORNER, 7, j) == j by {
        crate::roundtrip::lemma_small_masks(blk(ID_CORNER, j));
    }
    crate::swaps::lemma_identity_even(ID_CORNER, 7, 8);
    assert(!sigma_odd(c));
    assert forall|i: int| 0 <= i < 8 implies #[trigger] ori_at::<Corner>(ID_CORNER, i) == 0 by {
        crate::roundtrip::lemma_small_masks(blk(ID_CORNER, i));
    }
    lemma_ori_zero::<Corner>(ID_CORNER, 8);
    assert(diag_parities(c, k, false));
    assert(offdiag_even(c, k));
    lemma_cc_none(c, k, 1);
    lemma_rho_none(c, k, 2);
    assert(pairs_assembled::<Piece24>(ID_24)) by {
        assert forall|i: int| 0 <= i < 24 implies #[trigger] ((perm_at::<Piece24>(ID_24, i) as u8) ^ 1u8) == (perm_at::<Piece24>(
            ID_24,
            (i as usize ^ 1usize) as int,
        ) as u8) by {
            crate::roundtrip::lemma_small_masks(blk(ID_24, i));
            lemma_flip(i as u8, i as usize);
            let j = (i as usize ^ 1usize) as int;
            assert(0 <= j < 24);
            crate::roundtrip::lemma_small_masks(blk(ID_24, j));
        }
    }
    lemma_pair_none(c, 1 + k * k, 1 + k * k + k);
    if is_odd(n) {
        assert forall|j: int| 0 <= j < 12 implies #[trigger] step(ID_EDGE, 15, j) == j by {
            crate::roundtrip::lemma_small_masks(blk(ID_EDGE, j));
        }
        crate::swaps::lemma_identity_even(ID_EDGE, 15, 12);
        assert forall|j: int| 0 <= j < 6 implies #[trigger] step(ID_CENTER, 31, j) == j by {
            crate::roundtrip::lemma_small_masks(blk(ID_CENTER, j));
        }
        crate::swaps::lemma_identity_even(ID_CENTER, 31, 6);
        assert forall|i: int| 0 <= i < 12 implies #[trigger] ori_at::<Edge>(ID_EDGE, i) == 0 by {
            crate::roundtrip::lemma_small_masks(blk(ID_EDGE, i));
        }
        lemma_ori_zero::<Edge>(ID_EDGE, 12);
        assert forall|j: nat| 1 <= j <= k implies odd24(c[1 + k * k + k - j]) == (sigma_odd(c) ^ (
            #[trigger] rho_upto(c, k, j, j) ^ odd24(c[1 + k * k + k + j - 1]))) by {
            lemma_rho_even(c, k, j, j);
        }
        lemma_tau_none(c, k, 1);
    }
}

/// The words of a cube of dimension `n` that hold coupled edges.
pub open spec fn is_pair_word(n: nat, m: int) -> bool {
    let k = k_max(n);
    1 + k * k <= m < 1 + k * k + k
}

/// The values drawn for a random cube: the shuffle and the twists of the
/// corners, the shuffle and the flips of the single edges (odd dimensions),
/// and for each 24-piece word after the first its shuffle, with the flips
/// of the coupled-edge pairs for the words that hold coupled edges.
pub struct Draws {
    pub corner_swaps: Vec<usize>,
    pub corner_twists: Vec<usize>,
    pub edge_swaps: Vec<usize>,
    pub edge_flips: Vec<bool>,
    pub word_swaps: Vec<Vec<usize>>,
    pub pair_flips: Vec<Vec<bool>>,
}

/// `d` holds the draws that a random cube of dimension `n` needs.
pub open spec fn draws_fit(n: nat, d: Draws) -> bool {
    &&& corner_draws(d.corner_swaps@, d.corner_twists@)
    &&& is_odd(n) ==> swap_draws(d.edge_swaps@, 12) && d.edge_flips@.len() == 11
    &&& d.word_swaps@.len() + 1 == arena_stride(n)
    &&& d.pair_flips@.len() + 1 == arena_stride(n)
    &&& forall|m: int| 1 <= m < arena_stride(n) ==> #[trigger] word_draws_fit(n, d.word_swaps@, d.pair_flips@, m)
}

/// The draws for word `m` fit: a shuffle of 12 pairs and 12 flips for a
/// word of coupled edges, a shuffle of 24 for another word.
pub open spec fn word_draws_fit(n: nat, ws: Seq<Vec<usize>>, pf: Seq<Vec<bool>>, m: int) -> bool {
    if is_pair_word(n, m) {
        swap_draws(ws[m - 1]@, 12) && pf[m - 1]@.len() == 12
    } else {
        swap_draws(ws[m - 1]@, 24)
    }
}

/// Whether the drawn corners are an odd permutation.
pub open spec fn drawn_sigma(d: Draws) -> bool {
    odd_perm(corner_word(d.corner_swaps@, d.corner_twists@), 7, 8)
}

/// The first word drawn by `d`: the corners, and for odd dimensions the
/// single edges with the parity of the corners and the fixed centers at home.
pub open spec fn drawn_first(n: nat, d: Draws) -> u128 {
    let cw = corner_word(d.corner_swaps@, d.corner_twists@);
    if is_odd(n) {
        cw | (edge_word(d.edge_swaps@, d.edge_flips@, drawn_sigma(d)) << 40u128) | (ID_CENTER << 100u128)
    } else {
        cw
    }
}

/// Word `m` drawn by `d` before the coupled edges are fixed: a coupled-edge
/// orbit for the words that hold coupled edges; otherwise a shuffled
/// orbit, with the parity of the corners for center-corners and, for even
/// dimensions, made even for center-edges.
pub open spec fn drawn_word(n: nat, d: Draws, m: int) -> u128 {
    let k = k_max(n);
    if is_pair_word(n, m) {
        pair_word(d.word_swaps@[m - 1]@, d.pair_flips@[m - 1]@)
    } else {
        let o = orbit_word(d.word_swaps@[m - 1]@);
        if m < 1 + k * k && (m - 1) % ((k + 1) as int) == 0 {
            fixed_word(o, drawn_sigma(d))
        } else if !is_odd(n) && m < 1 + k * k {
            fixed_word(o, false)
        } else {
            o
        }
    }
}

/// The words drawn by `d` before the coupled edges are fixed.
pub open spec fn drawn_words(n: nat, d: Draws) -> Seq<u128> {
    Seq::new(
        arena_stride(n),
        |m: int|
            if m == 0 {
                drawn_first(n, d)
            } else {
                drawn_word(n, d, m)
            },
    )
}

/// The cube drawn by `d`: the drawn words, where for odd dimensions the
/// coupled edges of ring `j` get the parity of the corners times that of
/// the ring's center-edges and wings.
pub open spec fn drawn_cube(n: nat, d: Draws) -> Seq<u128> {
    let c1 = drawn_words(n, d);
    let k = k_max(n);
    let cew = 1 + k * k + k;
    Seq::new(
        arena_stride(n),
        |m: int|
            if is_odd(n) && is_pair_word(n, m) {
                fixed_word(
                    c1[m],
                    drawn_sigma(d) ^ (rho_upto(c1, k, (cew - m) as nat, (cew - m) as nat) ^ odd24(
                        c1[cew + (cew - m) - 1],
                    )),
                )
            } else {
                c1[m]
            },
    )
}

/// `len` flags drawn with `random_flag`.
fn draw_flags(rng: &mut ThreadRng, len: usize) -> (r: Vec<bool>)
    ensures
        r@.len() == len,
{
    let mut v: Vec<bool> = Vec::new();
    let mut i: usize = 0;
    while i < len
        invariant
            i <= len,
            v@.len() == i,
        decreases len - i,
    {
        v.push(random_flag(rng));
        i = i + 1;
    }
    v
}

/// `len` twists in `0 ..= 2` drawn with `random_upto`.
fn draw_twists(rng: &mut ThreadRng, len: usize) -> (r: Vec<usize>)
    ensures
        r@.len() == len,
        forall|i: int| 0 <= i < len ==> #[trigger] r@[i] <= 2,
{
    let mut v: Vec<usize> = Vec::new();
    let mut i: usize = 0;
    while i < len
        invariant
            i <= len,
            v@.len() == i,
            forall|j: int| 0 <= j < i ==> #[trigger] v@[j] <= 2,
        decreases len - i,
    {
        v.push(random_upto(rng, 2));
        i = i + 1;
    }
    v
}

impl CubeArena {
    /// Fills the cube at `index` with the cube drawn by `draws`: shuffled orbits,
    /// corner (and single-edge) orientations adding up to multiples of 3
    /// (and 2), fixed centers at home for odd dimensions, coupled edges kept
    /// in pairs, and permutation parities adjusted by exchanging two pieces:
    /// center-corners to the parity of the corners, for even dimensions the
    /// center-edges to even, for odd dimensions the single edges to the
    /// parity of the corners and each ring's coupled edges to the parity of
    /// the corners times that of the ring's center-edges and wings.
    #[verifier::rlimit(60)]
    pub fn fill_from_draws(&mut self, index: usize, draws: &Draws)
        requires
            old(self).wf(),
            index < old(self).slots(),
            draws_fit(old(self).spec_n(), *draws),
        ensures
            final(self).cube(index as int) == drawn_cube(old(self).spec_n(), *draws),
            final(self).wf(),
            final(self).spec_n() == old(self).spec_n(),
            final(self).spec_len() == old(self).spec_len(),
            valid_cube(old(self).spec_n(), final(self).cube(index as int)),
            ori_balanced::<Corner>(corner_of(final(self).cube(index as int)[0])),
            is_odd(old(self).spec_n()) ==> ori_balanced::<Edge>(edge_of(final(self).cube(index as int)[0]))
                && center_of(final(self).cube(index as int)[0]) == ID_CENTER,
            forall|e: int|
                1 + k_max(old(self).spec_n()) * k_max(old(self).spec_n()) <= e < 1 + k_max(old(self).spec_n())
                    * k_max(old(self).spec_n()) + k_max(old(self).spec_n()) ==> pairs_assembled::<Piece24>(
                    #[trigger] final(self).cube(index as int)[e],
                ),
            solvable_fault(old(self).spec_n(), final(self).cube(index as int)) is None,
            forall|i: int|
                0 <= i < old(self).slots() && i != index ==> #[trigger] final(self).cube(i) == old(self).cube(i),
    {
        proof {
            self.lemma_wf();
            lemma_id_words();
        }
        let ghost old_self = *self;
        let ghost gn = self.spec_n();
        let n = self.n() as usize;
        let stride = self.stride() as usize;
        let k = (n - 2 - n % 2) / 2;
        assert(k == k_max(gn));
        assert(k * k <= 127 * 127) by (nonlinear_arith)
            requires
                k <= 127,
        ;
        let ew_base = 1 + k * k;
        let cew_base = ew_base + k;
        let cw = corners_from(&draws.corner_swaps, &draws.corner_twists);
        proof {
            crate::laws::lemma_perm_word(ID_CENTER, 6);
        }
        let probe = cw;
        proof {
            assert forall|a: int, b: int| 0 <= a < 8 && 0 <= b < 8 && a != b implies #[trigger] step(probe, 7, a) != #[trigger] step(probe, 7, b) by {
                assert((blk(probe, a) & 7) != (blk(probe, b) & 7));
            }
        }
        let sigma = parity::<Corner>(cw);
        let ghost mut ewg: u128 = 0;
        let w0 = if n % 2 == 1 {
            let ew = edges_from(&draws.edge_swaps, &draws.edge_flips, sigma);
            proof {
                ewg = ew;
                lemma_word_bits(0, cw, ew, ID_CENTER);
                assert(ID_CENTER >> 28 == 0) by (bit_vector);
            }
            cw | (ew << 40u128) | (ID_CENTER << 100u128)
        } else {
            cw
        };
        proof {
            lemma_word_bits(w0, cw, 0, 0);
            lemma_perm_word(ID_CENTER, 6);
            crate::group::lemma_perm_neutral(ID_CENTER, ID_CENTER, 6);
        }
        assert(valid0(gn, w0));
        assert(sigma == drawn_sigma(*draws));
        assert(w0 == drawn_first(gn, *draws));
        assert(sigma == odd_perm(corner_of(w0), 7, 8));
        assert(is_odd(gn) ==> sigma == odd_perm(edge_of(w0), 15, 12));
        self.write_word(index, 0, w0);
        let mut i: usize = 1;
        while i < stride
            invariant
                self.wf(),
                self.spec_n() == gn,
                gn == old_self.spec_n(),
                self.spec_len() == old_self.spec_len(),
                self.spec_stride() == stride,
                stride == arena_stride(gn),
                index < self.slots(),
                k == k_max(gn),
                k <= 127,
                ew_base == 1 + k * k,
                cew_base == ew_base + k,
                n == gn,
                1 <= i <= stride,
                self.cube(index as int).len() == stride,
                self.cube(index as int)[0] == w0,
                valid0(gn, w0),
                ori_balanced::<Corner>(corner_of(w0)),
                is_odd(gn) ==> ori_balanced::<Edge>(edge_of(w0)) && center_of(w0) == ID_CENTER,
                forall|m: int| 1 <= m < i ==> perm_valid(#[trigger] self.cube(index as int)[m], 24),
                forall|m: int| ew_base <= m < cew_base && m < i ==> pairs_assembled::<Piece24>(#[trigger] self.cube(index as int)[m]),
                forall|m: int|
                    1 <= m < i && m < ew_base && (m - 1) % ((k + 1) as int) == 0 ==> odd24(
                        #[trigger] self.cube(index as int)[m],
                    ) == sigma,
                !is_odd(gn) ==> forall|m: int|
                    1 <= m < i && m < ew_base && (m - 1) % ((k + 1) as int) != 0 ==> !odd24(
                        #[trigger] self.cube(index as int)[m],
                    ),
                forall|j: int|
                    0 <= j < self.slots() && j != index ==> #[trigger] self.cube(j) == old_self.cube(j),
                draws_fit(gn, *draws),
                sigma == drawn_sigma(*draws),
                w0 == drawn_first(gn, *draws),
                forall|m: int| 1 <= m < i ==> #[trigger] self.cube(index as int)[m] == drawn_word(gn, *draws, m),
            decreases stride - i,
        {
            assert(is_pair_word(gn, i as int) == (ew_base <= i && i < cew_base));
            assert(1 <= i < arena_stride(gn));
            assert(word_draws_fit(gn, draws.word_swaps@, draws.pair_flips@, i as int));
            let w = if ew_base <= i && i < cew_base {
                pairs_from(&draws.word_swaps[i - 1], &draws.pair_flips[i - 1])
            } else {
                let o = orbit_from(&draws.word_swaps[i - 1]);
                if i < ew_base && (i - 1) % (k + 1) == 0 {
                    fix_word_parity(o, sigma)
                } else if n % 2 == 0 && i < ew_base {
                    fix_word_parity(o, false)
                } else {
                    o
                }
            };
            proof {
                if i < ew_base && (i - 1) % (k + 1) == 0 {
                    assert(odd24(w) == sigma);
                } else if n % 2 == 0 && i < ew_base {
                    assert(!odd24(w));
                }
            }
            assert(w == drawn_word(gn, *draws, i as int));
            self.write_word(index, i, w);
            i = i + 1;
        }
        let ghost c1 = self.cube(index as int);
        assert(c1 =~= drawn_words(gn, *draws));
        if n % 2 == 1 {
            let mut targets: Vec<bool> = Vec::new();
            let mut kk: usize = 1;
            while kk <= k
                invariant
                    self.wf(),
                    self.spec_n() == gn,
                    index < self.slots(),
                    self.spec_stride() == stride,
                    stride == arena_stride(gn),
                    is_odd(gn),
                    k == k_max(gn),
                    k <= 127,
                    cew_base == 1 + k * k + k,
                    1 <= kk <= k + 1,
                    targets@.len() == kk - 1,
                    self.cube(index as int).len() == stride,
                    self.cube(index as int) == c1,
                    forall|m: int| 1 <= m < stride ==> perm_valid(#[trigger] self.cube(index as int)[m], 24),
                    forall|j: int|
                        0 <= j < targets@.len() ==> #[trigger] targets@[j] == (sigma ^ (rho_upto(
                            c1,
                            k as nat,
                            (j + 1) as nat,
                            (j + 1) as nat,
                        ) ^ odd24(c1[cew_base + j]))),
                decreases k + 1 - kk,
            {
                let mut odd = false;
                let mut x: usize = 1;
                while x < kk
                    invariant
                        self.wf(),
                        self.spec_n() == gn,
                        index < self.slots(),
                        self.spec_stride() == stride,
                        stride == arena_stride(gn),
                        is_odd(gn),
                        k == k_max(gn),
                        k <= 127,
                        1 <= kk <= k,
                        1 <= x <= kk,
                        self.cube(index as int).len() == stride,
                        self.cube(index as int) == c1,
                        odd == rho_upto(c1, k as nat, kk as nat, x as nat),
                        forall|m: int| 1 <= m < stride ==> perm_valid(#[trigger] self.cube(index as int)[m], 24),
                    decreases kk - x,
                {
                    assert((k - kk) * k + (k - x) < k * k && (k - x) * k + (k - kk) < k * k)
                        by (nonlinear_arith)
                        requires
                            1 <= x < kk <= k,
                    ;
                    assert(stride == k * k + k + k + 1) by {
                        assert(k * (gn % 2) == k * 1);
                    }
                    assert((k - kk) * k <= 127 * 127 && (k - x) * k <= 127 * 127) by (nonlinear_arith)
                        requires
                            x <= k,
                            kk <= k <= 127,
                    ;
                    let ia = 1 + (k - kk) * k + (k - x);
                    let ib = 1 + (k - x) * k + (k - kk);
                    let wa = self.read_word(index, ia);
                    let wb = self.read_word(index, ib);
                    proof {
                        lemma_perm_word(wa, 24);
                        lemma_perm_word(wb, 24);
                    }
                    odd = odd ^ parity::<Piece24>(wa) ^ parity::<Piece24>(wb);
                    x = x + 1;
                }
                let ww = self.read_word(index, cew_base + kk - 1);
                proof {
                    lemma_perm_word(ww, 24);
                }
                odd = odd ^ parity::<Piece24>(ww);
                targets.push(sigma ^ odd);
                kk = kk + 1;
            }
            let mut kk: usize = 1;
            while kk <= k
                invariant
                    self.wf(),
                    self.spec_n() == gn,
                    gn == old_self.spec_n(),
                    self.spec_len() == old_self.spec_len(),
                    index < self.slots(),
                    self.spec_stride() == stride,
                    stride == arena_stride(gn),
                    is_odd(gn),
                    k == k_max(gn),
                    k <= 127,
                    ew_base == 1 + k * k,
                    cew_base == ew_base + k,
                    1 <= kk <= k + 1,
                    targets@.len() == k,
                    c1.len() == stride,
                    self.cube(index as int).len() == stride,
                    self.cube(index as int)[0] == w0,
                    forall|j: int|
                        0 <= j < k ==> #[trigger] targets@[j] == (sigma ^ (rho_upto(
                            c1,
                            k as nat,
                            (j + 1) as nat,
                            (j + 1) as nat,
                        ) ^ odd24(c1[cew_base + j]))),
                    forall|m: int|
                        0 <= m < stride && (m <= ew_base + k - kk || m >= cew_base) ==> #[trigger] self.cube(
                            index as int,
                        )[m] == c1[m],
                    forall|m: int|
                        ew_base + k - kk < m < cew_base ==> odd24(#[trigger] self.cube(index as int)[m])
                            == targets@[cew_base - m - 1],
                    forall|m: int| 1 <= m < stride ==> perm_valid(#[trigger] self.cube(index as int)[m], 24),
                    forall|m: int| ew_base <= m < cew_base ==> pairs_assembled::<Piece24>(#[trigger] self.cube(index as int)[m]),
                    forall|j: int|
                        0 <= j < self.slots() && j != index ==> #[trigger] self.cube(j) == old_self.cube(j),
                    forall|m: int|
                        ew_base + k - kk < m < cew_base ==> #[trigger] self.cube(index as int)[m] == fixed_word(
                            c1[m],
                            targets@[cew_base - m - 1],
                        ),
                decreases k + 1 - kk,
            {
                let idx = ew_base + k - kk;
                let w = self.read_word(index, idx);
                let fixed = fix_word_parity(w, targets[kk - 1]);
                self.write_word(index, idx, fixed);
                kk = kk + 1;
            }
            proof {
                let cf = self.cube(index as int);
                let kn = k as nat;
                assert(cf[0] == w0);
                assert(sigma_odd(cf) == sigma);
                assert forall|j: nat| 1 <= j <= kn implies odd24(cf[1 + kn * kn + kn - j]) == (sigma_odd(cf) ^ (
                    #[trigger] rho_upto(cf, kn, j, j) ^ odd24(cf[1 + kn * kn + kn + j - 1]))) by {
                    assert forall|m: int| 0 <= m < 1 + kn * kn implies #[trigger] cf[m] == c1[m] by {}
                    lemma_rho_agree(cf, c1, kn, j, j);
                    let m = cew_base - j;
                    assert(odd24(cf[m]) == targets@[j - 1]);
                    assert(stride == kn * kn + kn + kn + 1) by {
                        assert(gn % 2 == 1);
                        assert(k_max(gn) == kn);
                        assert(arena_stride(gn) == kn * kn + kn + kn * (gn % 2) + 1);
                        assert(kn * (gn % 2) == kn * 1);
                    }
                    assert(cf[cew_base + j - 1] == c1[cew_base + j - 1]);
                }
                lemma_tau_none(cf, kn, 1);
            }
            proof {
                let cf = self.cube(index as int);
                let kn = k as nat;
                assert forall|m: int| 0 <= m < stride implies #[trigger] cf[m] == drawn_cube(gn, *draws)[m] by {
                    if is_pair_word(gn, m) {
                        assert(targets@[cew_base - m - 1] == (sigma ^ (rho_upto(c1, kn, (cew_base - m) as nat, (cew_base - m) as nat) ^ odd24(c1[cew_base + (cew_base - m) - 1]))));
                    }
                }
                assert(cf =~= drawn_cube(gn, *draws));
            }
        }
        proof {
            let cf = self.cube(index as int);
            let kn = k as nat;
            assert(cf[0] == w0);
            assert(sigma_odd(cf) == sigma);
            assert forall|m: int| 0 <= m < 1 + kn * kn implies #[trigger] cf[m] == c1[m] by {}
            assert(diag_parities(cf, kn, sigma_odd(cf))) by {
                assert forall|m: int| 1 <= m < 1 + kn * kn && (m - 1) % ((kn + 1) as int) == 0 implies odd24(#[trigger] cf[m]) == sigma_odd(cf) by {
                    assert(cf[m] == c1[m]);
                }
            }
            lemma_cc_none(cf, kn, 1);
            lemma_pair_none(cf, ew_base as nat, cew_base as nat);
            if !is_odd(gn) {
                assert(offdiag_even(cf, kn)) by {
                    assert forall|m: int| 1 <= m < 1 + kn * kn && (m - 1) % ((kn + 1) as int) != 0 implies !odd24(#[trigger] cf[m]) by {
                        assert(cf[m] == c1[m]);
                    }
                }
                lemma_rho_none(cf, kn, 2);
            } else {
                assert forall|j: int| 0 <= j < 6 implies #[trigger] step(ID_CENTER, 31, j) == j by {
                    crate::roundtrip::lemma_small_masks(blk(ID_CENTER, j));
                }
                crate::swaps::lemma_identity_even(ID_CENTER, 31, 6);
            }
        }
        assert(valid_cube(gn, self.cube(index as int)));
        assert(self.cube(index as int) =~= drawn_cube(gn, *draws));
    }

    /// Fills the cube at `index` with a random cube: draws the shuffles,
    /// twists and flips, in the order in which the cube is built, then fills
    /// the cube from them (see `fill_from_draws`).
    pub fn random_cube(&mut self, index: usize, rng: &mut ThreadRng)
        requires
            old(self).wf(),
            index < old(self).slots(),
        ensures
            exists|d: Draws| draws_fit(old(self).spec_n(), d) && final(self).cube(index as int) == drawn_cube(old(self).spec_n(), d),
            final(self).wf(),
            final(self).spec_n() == old(self).spec_n(),
            final(self).spec_len() == old(self).spec_len(),
            valid_cube(old(self).spec_n(), final(self).cube(index as int)),
            ori_balanced::<Corner>(corner_of(final(self).cube(index as int)[0])),
            is_odd(old(self).spec_n()) ==> ori_balanced::<Edge>(edge_of(final(self).cube(index as int)[0]))
                && center_of(final(self).cube(index as int)[0]) == ID_CENTER,
            forall|e: int|
                1 + k_max(old(self).spec_n()) * k_max(old(self).spec_n()) <= e < 1 + k_max(old(self).spec_n())
                    * k_max(old(self).spec_n()) + k_max(old(self).spec_n()) ==> pairs_assembled::<Piece24>(
                    #[trigger] final(self).cube(index as int)[e],
                ),
            solvable_fault(old(self).spec_n(), final(self).cube(index as int)) is None,
            forall|i: int|
                0 <= i < old(self).slots() && i != index ==> #[trigger] final(self).cube(i) == old(self).cube(i),
    {
        proof {
            self.lemma_wf();
        }
        let ghost gn = self.spec_n();
        let n = self.n() as usize;
        let stride = self.stride() as usize;
        let k = (n - 2 - n % 2) / 2;
        assert(k == k_max(gn));
        assert(k * k <= 127 * 127) by (nonlinear_arith)
            requires
                k <= 127,
        ;
        let ew_base = 1 + k * k;
        let cew_base = ew_base + k;
        let corner_swaps = draw_swaps(rng, 8);
        let corner_twists = draw_twists(rng, 7);
        let mut edge_swaps: Vec<usize> = Vec::new();
        let mut edge_flips: Vec<bool> = Vec::new();
        if n % 2 == 1 {
            edge_swaps = draw_swaps(rng, 12);
            edge_flips = draw_flags(rng, 11);
        }
        let mut word_swaps: Vec<Vec<usize>> = Vec::new();
        let mut pair_flips: Vec<Vec<bool>> = Vec::new();
        let mut i: usize = 1;
        while i < stride
            invariant
                stride == arena_stride(gn),
                k == k_max(gn),
                ew_base == 1 + k * k,
                cew_base == ew_base + k,
                1 <= i <= stride,
                word_swaps@.len() + 1 == i,
                pair_flips@.len() + 1 == i,
                forall|m: int| 1 <= m < i ==> #[trigger] word_draws_fit(gn, word_swaps@, pair_flips@, m),
            decreases stride - i,
        {
            assert(is_pair_word(gn, i as int) == (ew_base <= i && i < cew_base));
            let ghost ws = word_swaps@;
            let ghost pf = pair_flips@;
            if ew_base <= i && i < cew_base {
                word_swaps.push(draw_swaps(rng, 12));
                pair_flips.push(draw_flags(rng, 12));
            } else {
                word_swaps.push(draw_swaps(rng, 24));
                pair_flips.push(Vec::new());
            }
            assert forall|m: int| 1 <= m < i + 1 implies #[trigger] word_draws_fit(gn, word_swaps@, pair_flips@, m) by {
                if m < i {
                    assert(word_draws_fit(gn, ws, pf, m));
                    assert(word_swaps@[m - 1] == ws[m - 1]);
                    assert(pair_flips@[m - 1] == pf[m - 1]);
                }
            }
            i = i + 1;
        }
        let draws = Draws { corner_swaps, corner_twists, edge_swaps, edge_flips, word_swaps, pair_flips };
        assert(corner_draws(draws.corner_swaps@, draws.corner_twists@));
        assert(is_odd(gn) ==> swap_draws(draws.edge_swaps@, 12) && draws.edge_flips@.len() == 11);
        assert(draws_fit(gn, draws));
        self.fill_from_draws(index, &draws);
    }
}

} // verus!
