//! Packing the geometric model of a packed cube gives the packed cube
//! back: the home points of each group are distinct, so each cubie is
//! found again at the block that placed it.
use vstd::prelude::*;

use crate::arena::{arena_stride, center_of, corner_of, edge_of, group_len, group_pairs, is_odd};
use crate::bits::{blk, fits, lemma_scatter, lemma_word_ext, scatter};
use crate::group::{lemma_blk_small, lemma_onto, lemma_ori_bits, lemma_top_zero, reached};
use crate::cube_vect::{
    home_ori, home_points, home_points_upto, kind_groups, kind_len, kind_points, orbit_points,
    orbit_table, Point3,
};
use crate::cycles::{is_perm, step};
use crate::laws::{lemma_valid_perms, valid_cube};
use crate::packing::{
    corner_face, corner_val, corner_word, center_word, edge_face, edge_val, edge_word, face_dir,
    group_base, group_count, group_first, group_word, ident, kind_words, lemma_points_len, locate,
    locate_from, packed_vect, packed_word0, place_group, place_upto, pos_in, unpackable, unpacked,
};
use crate::group::perm_valid;
use crate::laws::{law_identity_valid, lemma_id_words, lemma_word0_id, lemma_word_bits, valid0};
use crate::arena::identity_cube;
use crate::group::perm_identity;

verus! {

/// No two points of `s` are equal.
pub open spec fn distinct(s: Seq<Point3>) -> bool {
    forall|i: int, j: int| 0 <= i < s.len() && 0 <= j < s.len() && i != j ==> s[i] != s[j]
}

/// The home points of every group of every orbit kind are distinct.
pub proof fn lemma_home_distinct(kind: nat, n: nat, idx: nat)
    requires
        kind < 6,
        2 <= n < 128,
        idx < kind_groups(kind, n),
    ensures
        distinct(orbit_points(kind, n, idx)),
{
    let h = (n / 2) as int;
    let k = ((n - 2 - n % 2) / 2) as nat;
    assert(k == h - 1);
    let s = orbit_points(kind, n, idx);
    lemma_points_len(n);
    if kind == 3 {
        let t = h - 1;
        assert(idx < k * k);
        assert(t >= 1) by (nonlinear_arith)
            requires
                idx < k * k,
                k == t,
        ;
        assert((idx as int) / t < t) by {
            vstd::arithmetic::div_mod::lemma_multiply_divide_lt(idx as int, t, t);
        }
        assert forall|i: int, j: int| 0 <= i < 24 && 0 <= j < 24 && i != j implies s[i] != s[j] by {
        }
    } else if kind == 5 {
        assert(idx < k) by (nonlinear_arith)
            requires
                idx < k * (n % 2),
                n % 2 <= 1,
        ;
        assert forall|i: int, j: int| 0 <= i < 24 && 0 <= j < 24 && i != j implies s[i] != s[j] by {
        }
    } else if kind == 4 {
        assert forall|i: int, j: int| 0 <= i < 24 && 0 <= j < 24 && i != j implies s[i] != s[j] by {
        }
    } else if kind == 0 {
        assert forall|i: int, j: int| 0 <= i < 8 && 0 <= j < 8 && i != j implies s[i] != s[j] by {
        }
    } else if kind == 1 {
        assert forall|i: int, j: int| 0 <= i < 12 && 0 <= j < 12 && i != j implies s[i] != s[j] by {
        }
    } else {
        assert forall|i: int, j: int| 0 <= i < 6 && 0 <= j < 6 && i != j implies s[i] != s[j] by {
        }
    }
}

/// In a sequence of distinct points, each point is found at its own index.
pub proof fn lemma_locate_distinct(s: Seq<Point3>, i: int)
    requires
        distinct(s),
        0 <= i < s.len(),
    ensures
        locate(s, s[i]) == i,
{
    lemma_locate_from_distinct(s, i, 0);
}

proof fn lemma_locate_from_distinct(s: Seq<Point3>, i: int, k: nat)
    requires
        distinct(s),
        0 <= i < s.len(),
        k <= i,
    ensures
        locate_from(s, s[i], k) == i,
    decreases i - k,
{
    if k < i {
        assert(s[k as int] != s[i]);
        lemma_locate_from_distinct(s, i, k + 1);
    }
}

/// Point `idx * len + i` of the groups `0 .. g` of a kind is point `i` of
/// group `idx`.
proof fn lemma_kind_points_index(kind: nat, n: nat, g: nat, idx: nat, i: int)
    requires
        kind < 6,
        2 <= n < 128,
        idx < g,
        0 <= i < kind_len(kind),
    ensures
        kind_points(kind, n, g).len() == g * kind_len(kind),
        kind_points(kind, n, g)[idx * kind_len(kind) + i] == orbit_points(kind, n, idx)[i],
    decreases g,
{
    lemma_points_len(n);
    let l = kind_len(kind);
    let gp = (g - 1) as nat;
    lemma_kind_points_len_local(kind, n, gp);
    lemma_kind_points_len_local(kind, n, g);
    assert(gp * l + l == g * l) by (nonlinear_arith)
        requires
            gp + 1 == g,
    ;
    if idx < gp {
        lemma_kind_points_index(kind, n, gp, idx, i);
        assert(idx * l + i < gp * l) by (nonlinear_arith)
            requires
                idx < gp,
                0 <= i < l,
        ;
    } else {
        assert(idx == gp);
    }
}

#[verifier::spinoff_prover]
proof fn lemma_kind_points_len_local(kind: nat, n: nat, g: nat)
    requires
        kind < 6,
        2 <= n < 128,
    ensures
        kind_points(kind, n, g).len() == g * kind_len(kind),
    decreases g,
{
    lemma_points_len(n);
    if g > 0 {
        lemma_kind_points_len_local(kind, n, (g - 1) as nat);
        assert((g - 1) * kind_len(kind) + kind_len(kind) == g * kind_len(kind)) by (nonlinear_arith);
    }
}

/// The points of the kinds `0 .. m` come first among the home points.
proof fn lemma_upto_prefix(n: nat, m: nat, m2: nat, p: int)
    requires
        2 <= n < 128,
        m <= m2,
        0 <= p < home_points_upto(n, m).len(),
    ensures
        home_points_upto(n, m2).len() >= home_points_upto(n, m).len(),
        home_points_upto(n, m2)[p] == home_points_upto(n, m)[p],
    decreases m2 - m,
{
    if m < m2 {
        lemma_upto_prefix(n, m, (m2 - 1) as nat, p);
    }
}

/// The home points of the kinds `0 .. m` number as many as the first
/// cubie of kind `m` says.
#[verifier::spinoff_prover]
proof fn lemma_upto_len(n: nat, m: nat)
    requires
        2 <= n < 128,
        m < 6,
    ensures
        home_points_upto(n, m).len() == orbit_table(n)[m as int].0,
    decreases m,
{
    lemma_points_len(n);
    if m > 0 {
        lemma_upto_len(n, (m - 1) as nat);
        lemma_kind_points_len_local((m - 1) as nat, n, kind_groups((m - 1) as nat, n));
        assert(home_points_upto(n, m) == home_points_upto(n, (m - 1) as nat) + kind_points(
            (m - 1) as nat,
            n,
            kind_groups((m - 1) as nat, n),
        ));
    }
}

/// Point `i` of group `idx` of kind `kind` sits at its place among the home
/// points of the cube.
pub proof fn lemma_home_slice(n: nat, kind: nat, idx: nat, i: int)
    requires
        2 <= n < 128,
        kind < 6,
        idx < kind_groups(kind, n),
        0 <= i < kind_len(kind),
    ensures
        orbit_table(n)[kind as int].0 + idx * kind_len(kind) + i < home_points(n).len(),
        home_points(n)[orbit_table(n)[kind as int].0 + idx * kind_len(kind) + i] == orbit_points(
            kind,
            n,
            idx,
        )[i],
{
    let l = kind_len(kind);
    let g = kind_groups(kind, n);
    lemma_kind_points_index(kind, n, g, idx, i);
    lemma_upto_len(n, kind);
    let pre = home_points_upto(n, kind);
    let kp = kind_points(kind, n, g);
    assert(home_points_upto(n, kind + 1) == pre + kp);
    assert(idx * l + i < g * l) by (nonlinear_arith)
        requires
            idx < g,
            0 <= i < l,
    ;
    let p = pre.len() + idx * l + i;
    assert(home_points_upto(n, kind + 1)[p] == kp[idx * l + i]);
    lemma_upto_prefix(n, kind + 1, 6, p);
}

/// Small masks keep small values.
pub proof fn lemma_small_masks(x: u128)
    ensures
        x < 2 ==> x & 1 == x,
        x < 4 ==> x & 3 == x,
        x < 8 ==> x & 7 == x,
        x < 16 ==> x & 15 == x,
        x < 32 ==> x & 31 == x,
        x < 8 ==> x >> 3u128 == 0,
        x < 16 ==> x >> 4u128 == 0,
{
    assert((x < 2 ==> x & 1 == x) && (x < 4 ==> x & 3 == x) && (x < 8 ==> x & 7 == x) && (x < 16
        ==> x & 15 == x) && (x < 32 ==> x & 31 == x) && (x < 8 ==> x >> 3u128 == 0) && (x < 16 ==> x
        >> 4u128 == 0)) by (bit_vector);
}

/// The permutation field of piece `i` of orbit group `g` of `c`.
pub open spec fn gperm(n: nat, c: Seq<u128>, g: int, i: int) -> int {
    group_pairs(n, c, g)[i].0 as int
}

/// The orientation field of piece `i` of orbit group `g` of `c`.
pub open spec fn gori(n: nat, c: Seq<u128>, g: int, i: int) -> int {
    group_pairs(n, c, g)[i].1 as int
}

/// The packed word and permutation mask of orbit group `g`.
pub open spec fn group_word_of(n: nat, c: Seq<u128>, g: int) -> (u128, u128) {
    if g == 0 {
        (corner_of(c[0]), 7u128)
    } else if is_odd(n) && g == 1 {
        (edge_of(c[0]), 15u128)
    } else if is_odd(n) && g == 2 {
        (center_of(c[0]), 31u128)
    } else {
        (c[g - 2 * (n % 2) as int], 31u128)
    }
}

/// Each orbit group of a valid cube holds each of its pieces once, with
/// the corner twists below 3 and the edge flips below 2.
pub proof fn lemma_group_perm(n: nat, c: Seq<u128>, g: int)
    requires
        2 <= n < 128,
        valid_cube(n, c),
        0 <= g < group_count(n),
    ensures
        group_pairs(n, c, g).len() == group_len(n, g),
        is_perm(group_word_of(n, c, g).0, group_word_of(n, c, g).1, group_len(n, g)),
        forall|i: int| 0 <= i < group_len(n, g) ==> #[trigger] gperm(n, c, g, i) == step(group_word_of(n, c, g).0, group_word_of(n, c, g).1, i),
        forall|i: int| 0 <= i < group_len(n, g) ==> 0 <= #[trigger] gperm(n, c, g, i) < group_len(n, g),
        forall|i: int, j: int|
            0 <= i < group_len(n, g) && 0 <= j < group_len(n, g) && i != j ==> #[trigger] gperm(n, c, g, i) != #[trigger] gperm(n, c, g, j),
        g == 0 ==> forall|i: int| 0 <= i < 8 ==> #[trigger] gori(n, c, g, i) == (blk(corner_of(c[0]), i) >> 3) && gori(n, c, g, i) < 3,
        is_odd(n) && g == 1 ==> forall|i: int| 0 <= i < 12 ==> #[trigger] gori(n, c, g, i) == (blk(edge_of(c[0]), i) >> 4) && gori(n, c, g, i) < 2,
{
    lemma_valid_perms(n, c);
    let (w, pm) = group_word_of(n, c, g);
    let l = group_len(n, g);
    if !(g == 0 || (is_odd(n) && g <= 2)) {
        let k = g - 2 * (n % 2) as int;
        assert(1 <= k < c.len());
        assert(is_perm(c[k], 31, 24));
    }
    assert forall|i: int| 0 <= i < l implies #[trigger] gperm(n, c, g, i) == step(w, pm, i) by {
        assert(0 <= step(w, pm, i) < l);
    }
    if g == 0 {
        assert forall|i: int| 0 <= i < 8 implies #[trigger] gori(n, c, g, i) == (blk(corner_of(c[0]), i) >> 3) && gori(n, c, g, i) < 3 by {
            let v = blk(corner_of(c[0]), i);
            assert((v >> 3) < 3);
            lemma_small_masks(v >> 3);
        }
    }
    if is_odd(n) && g == 1 {
        assert forall|i: int| 0 <= i < 12 implies #[trigger] gori(n, c, g, i) == (blk(edge_of(c[0]), i) >> 4) && gori(n, c, g, i) < 2 by {
            let v = blk(edge_of(c[0]), i);
            assert((v >> 4) < 2);
            lemma_small_masks(v >> 4);
        }
    }
}

/// Consecutive orbit groups occupy consecutive cubies.
pub proof fn lemma_group_bases(n: nat, g: int)
    requires
        2 <= n < 128,
        0 <= g,
    ensures
        group_base(n, g + 1) == group_base(n, g) + group_len(n, g),
        group_base(n, g) >= 0,
        group_base(n, group_count(n) as int) == home_points(n).len(),
        g < group_count(n) ==> group_len(n, g) <= 24,
{
    lemma_points_len(n);
}

/// Placing the pieces `0 .. k` of group `g` puts the cubie each names at
/// the home point of its block, turned as its twist or flip says, and
/// touches nothing outside the group.
pub proof fn lemma_place_group(n: nat, c: Seq<u128>, s: (Seq<Point3>, Seq<Point3>), g: int, k: nat)
    requires
        2 <= n < 128,
        valid_cube(n, c),
        0 <= g < group_count(n),
        k <= group_len(n, g),
        s.0.len() == home_points(n).len(),
        s.1.len() == home_ori(n).len(),
    ensures
        ({
            let r = place_group(n, c, s, g, k);
            let b = group_base(n, g);
            &&& r.0.len() == s.0.len()
            &&& r.1.len() == s.1.len()
            &&& forall|i: int| 0 <= i < k ==> r.0[b + #[trigger] gperm(n, c, g, i)] == home_points(n)[b + i]
            &&& forall|q: int| 0 <= q < s.0.len() && !(b <= q < b + group_len(n, g)) ==> #[trigger] r.0[q] == s.0[q]
            &&& g == 0 ==> forall|i: int| 0 <= i < k ==> r.1[#[trigger] gperm(n, c, g, i)] == face_dir(corner_face(i, gori(n, c, g, i)))
            &&& is_odd(n) && g == 1 ==> forall|i: int| 0 <= i < k ==> r.1[8 + #[trigger] gperm(n, c, g, i)] == face_dir(edge_face(i, gori(n, c, g, i)))
            &&& forall|q: int| 0 <= q < s.1.len() && !(g == 0 && q < 8) && !(is_odd(n) && g == 1 && 8 <= q < 20) ==> #[trigger] r.1[q] == s.1[q]
        }),
    decreases k,
{
    lemma_group_perm(n, c, g);
    lemma_group_bases(n, g);
    lemma_points_len(n);
    let b = group_base(n, g);
    if k > 0 {
        let kp = (k - 1) as nat;
        lemma_place_group(n, c, s, g, kp);
        let prev = place_group(n, c, s, g, kp);
        let r = place_group(n, c, s, g, k);
        assert(r == crate::packing::place_piece(n, c, prev, g, kp as int));
        let p = gperm(n, c, g, kp as int);
        assert(0 <= p < group_len(n, g));
        assert(r.0 == prev.0.update(b + p, home_points(n)[b + kp]));
        assert forall|i: int| 0 <= i < k implies r.0[b + #[trigger] gperm(n, c, g, i)] == home_points(n)[b + i] by {
            if i < kp {
                assert(gperm(n, c, g, i) != p);
            }
        }
        if g == 0 {
            assert forall|i: int| 0 <= i < k implies r.1[#[trigger] gperm(n, c, g, i)] == face_dir(corner_face(i, gori(n, c, g, i))) by {
                if i < kp {
                    assert(gperm(n, c, g, i) != p);
                }
            }
        }
        if is_odd(n) && g == 1 {
            assert forall|i: int| 0 <= i < k implies r.1[8 + #[trigger] gperm(n, c, g, i)] == face_dir(edge_face(i, gori(n, c, g, i))) by {
                if i < kp {
                    assert(gperm(n, c, g, i) != p);
                }
            }
        }
    }
}

/// The end of the groups `0 .. g`.
pub open spec fn groups_end(n: nat, g: int) -> int {
    group_base(n, g)
}

/// After placing the groups `0 .. gg`, every piece of them sits at the home
/// point of its block, the corners and single edges turned as packed, and
/// every later cubie is still at home.
pub proof fn lemma_place_upto(n: nat, c: Seq<u128>, gg: nat)
    requires
        2 <= n < 128,
        valid_cube(n, c),
        gg <= group_count(n),
    ensures
        ({
            let r = place_upto(n, c, gg);
            &&& r.0.len() == home_points(n).len()
            &&& r.1.len() == home_ori(n).len()
            &&& forall|g: int, i: int| 0 <= g < gg && 0 <= i < group_len(n, g) ==> r.0[group_base(n, g) + #[trigger] gperm(n, c, g, i)] == home_points(n)[group_base(n, g) + i]
            &&& forall|q: int| groups_end(n, gg as int) <= q < home_points(n).len() ==> #[trigger] r.0[q] == home_points(n)[q]
            &&& gg > 0 ==> forall|i: int| 0 <= i < 8 ==> r.1[#[trigger] gperm(n, c, 0, i)] == face_dir(corner_face(i, gori(n, c, 0, i)))
            &&& is_odd(n) && gg > 1 ==> forall|i: int| 0 <= i < 12 ==> r.1[8 + #[trigger] gperm(n, c, 1, i)] == face_dir(edge_face(i, gori(n, c, 1, i)))
        }),
    decreases gg,
{
    lemma_points_len(n);
    if gg > 0 {
        let g = (gg - 1) as int;
        lemma_place_upto(n, c, (gg - 1) as nat);
        let prev = place_upto(n, c, (gg - 1) as nat);
        lemma_place_group(n, c, prev, g, group_len(n, g));
        lemma_group_bases(n, g);
        let r = place_upto(n, c, gg);
        assert(r == place_group(n, c, prev, g, group_len(n, g)));
        assert forall|h: int, i: int| 0 <= h < gg && 0 <= i < group_len(n, h) implies r.0[group_base(n, h) + #[trigger] gperm(n, c, h, i)] == home_points(n)[group_base(n, h) + i] by {
            if h < g {
                lemma_group_perm(n, c, h);
                lemma_bases_increase(n, h, g);
                assert(0 <= gperm(n, c, h, i) < group_len(n, h));
            }
        }
        if gg > 1 {
            lemma_group_perm(n, c, 0);
        }
    }
}

proof fn lemma_bases_increase(n: nat, h: int, g: int)
    requires
        2 <= n < 128,
        0 <= h < g,
    ensures
        group_base(n, h) + group_len(n, h) <= group_base(n, g),
        0 <= group_base(n, h),
    decreases g - h,
{
    lemma_group_bases(n, h);
    if h + 1 < g {
        lemma_bases_increase(n, h + 1, g);
        lemma_group_bases(n, h + 1);
    }
}

/// The word that packs the values `val` at the positions `pos` is `w` when
/// every block `i` of `w` names, through `pos`, its own position and,
/// through `val`, its own value.
proof fn lemma_scatter_back(w: u128, pm: u128, l: nat, val: spec_fn(int) -> u128, pos: spec_fn(int) -> u128)
    requires
        l <= 24,
        w >> ((5 * l) as u128) == 0,
        is_perm(w, pm, l),
        forall|i: int| 0 <= i < l ==> #[trigger] pos(step(w, pm, i)) == i as u128,
        forall|i: int| 0 <= i < l ==> #[trigger] val(step(w, pm, i)) == blk(w, i),
    ensures
        scatter(val, pos, l) == w,
{
    let f = |i: int| step(w, pm, i);
    lemma_onto(f, l as int);
    assert forall|j: int| 0 <= j < l implies #[trigger] val(j) < 32 by {
        assert(reached(f, l as int, j));
        let i = choose|i: int| 0 <= i < l && #[trigger] f(i) == j;
        assert(step(w, pm, i) == j);
        lemma_blk_small(w, i);
    }
    assert forall|j: int| 0 <= j < l implies #[trigger] pos(j) < l by {
        assert(reached(f, l as int, j));
        let i = choose|i: int| 0 <= i < l && #[trigger] f(i) == j;
        assert(step(w, pm, i) == j);
    }
    assert(fits(val, l));
    assert forall|j1: int, j2: int| 0 <= j1 < l && 0 <= j2 < l && j1 != j2 implies #[trigger] pos(j1) != #[trigger] pos(j2) by {
        assert(reached(f, l as int, j1));
        assert(reached(f, l as int, j2));
        let i1 = choose|i: int| 0 <= i < l && #[trigger] f(i) == j1;
        let i2 = choose|i: int| 0 <= i < l && #[trigger] f(i) == j2;
        assert(step(w, pm, i1) == j1 && step(w, pm, i2) == j2);
    }
    lemma_scatter(val, pos, l);
    let sc = scatter(val, pos, l);
    assert forall|i: int| 0 <= i < l implies #[trigger] blk(sc, i) == blk(w, i) by {
        let j = step(w, pm, i);
        assert(pos(j) == i as u128);
        assert(blk(sc, pos(j) as int) == val(j));
    }
    assert forall|j: int| l <= j < 26 implies #[trigger] blk(sc, j) == 0 by {
        assert forall|i: int| 0 <= i < l implies #[trigger] pos(i) != j by {}
    }
    lemma_top_zero(sc, l);
    lemma_word_ext(sc, w, l);
}

/// Reading back the twist that a sticker direction gives.
proof fn lemma_twist_back(i: int, o: int)
    requires
        0 <= i < 8,
        0 <= o < 3,
    ensures
        crate::packing::corner_twist(i as nat, face_dir(corner_face(i, o))) == o as u128,
{
}

/// Reading back the flip that a sticker direction gives.
proof fn lemma_flip_back(i: int, o: int)
    requires
        0 <= i < 12,
        0 <= o < 2,
    ensures
        crate::packing::edge_flip(i as nat, face_dir(edge_face(i, o))) == o as u128,
{
}

/// In the model of a valid packed cube, the cubie that block `i` of group
/// `g` names is found at home point `i` of the group.
proof fn lemma_group_positions(n: nat, c: Seq<u128>, g: int, kind: nat, idx: nat)
    requires
        2 <= n < 128,
        valid_cube(n, c),
        0 <= g < group_count(n),
        kind < 6,
        idx < kind_groups(kind, n),
        group_base(n, g) == orbit_table(n)[kind as int].0 + idx * kind_len(kind),
        group_len(n, g) == kind_len(kind),
    ensures
        forall|i: int| 0 <= i < group_len(n, g) ==> #[trigger] pos_in(orbit_points(kind, n, idx), unpacked(n, c).0, group_base(n, g))(
            step(group_word_of(n, c, g).0, group_word_of(n, c, g).1, i),
        ) == i as u128,
{
    lemma_place_upto(n, c, group_count(n));
    lemma_group_perm(n, c, g);
    lemma_home_distinct(kind, n, idx);
    let d = unpacked(n, c).0;
    let home = orbit_points(kind, n, idx);
    let b = group_base(n, g);
    assert forall|i: int| 0 <= i < group_len(n, g) implies #[trigger] pos_in(home, d, b)(
        step(group_word_of(n, c, g).0, group_word_of(n, c, g).1, i),
    ) == i as u128 by {
        lemma_home_slice(n, kind, idx, i);
        assert(d[b + gperm(n, c, g, i)] == home_points(n)[b + i]);
        lemma_points_len(n);
        lemma_locate_distinct(home, i);
    }
}

/// The packed word of a 24-piece group, or of the fixed centers, of the
/// model of a valid cube is the word of the cube.
proof fn lemma_perm_group_word(n: nat, c: Seq<u128>, g: int, kind: nat, idx: nat)
    requires
        2 <= n < 128,
        valid_cube(n, c),
        0 <= g < group_count(n),
        kind < 6,
        kind == 2 || kind >= 3,
        idx < kind_groups(kind, n),
        group_base(n, g) == orbit_table(n)[kind as int].0 + idx * kind_len(kind),
        group_len(n, g) == kind_len(kind),
        group_word_of(n, c, g).1 == 31,
        perm_valid(group_word_of(n, c, g).0, group_len(n, g)),
    ensures
        scatter(ident(), pos_in(orbit_points(kind, n, idx), unpacked(n, c).0, group_base(n, g)), group_len(n, g))
            == group_word_of(n, c, g).0,
{
    lemma_group_positions(n, c, g, kind, idx);
    lemma_group_perm(n, c, g);
    let w = group_word_of(n, c, g).0;
    let l = group_len(n, g);
    assert forall|i: int| 0 <= i < l implies #[trigger] ident()(step(w, 31, i)) == blk(w, i) by {
        lemma_blk_small(w, i);
        lemma_small_masks(blk(w, i));
    }
    lemma_scatter_back(w, 31, l, ident(), pos_in(orbit_points(kind, n, idx), unpacked(n, c).0, group_base(n, g)));
}

/// The packed corners of the model of a valid cube are its corners.
proof fn lemma_corner_back(n: nat, c: Seq<u128>)
    requires
        2 <= n < 128,
        valid_cube(n, c),
    ensures
        corner_word(n, unpacked(n, c).0, unpacked(n, c).1) == corner_of(c[0]),
{
    lemma_points_len(n);
    lemma_group_bases(n, 0);
    lemma_group_positions(n, c, 0, 0, 0);
    lemma_group_perm(n, c, 0);
    lemma_place_upto(n, c, group_count(n));
    let u = unpacked(n, c);
    let w = corner_of(c[0]);
    let home = orbit_points(0, n, 0);
    let val = corner_val(u.0, u.1, n);
    let pos = pos_in(home, u.0, 0);
    assert forall|i: int| 0 <= i < 8 implies #[trigger] val(step(w, 7, i)) == blk(w, i) by {
        let j = step(w, 7, i);
        assert(j == gperm(n, c, 0, i));
        lemma_home_slice(n, 0, 0, i);
        lemma_home_distinct(0, n, 0);
        lemma_locate_distinct(home, i);
        assert(u.0[j] == home[i]);
        assert(locate(home, u.0[j]) == i);
        lemma_twist_back(i, gori(n, c, 0, i));
        assert(u.1[j] == face_dir(corner_face(i, gori(n, c, 0, i))));
        let v = blk(w, i);
        lemma_blk_small(w, i);
        lemma_ori_bits(7, 3, 3, v, 0, 0);
        lemma_small_masks(v & 7);
        assert(j as u128 == v & 7);
    }
    assert(w >> 40u128 == 0);
    lemma_scatter_back(w, 7, 8, val, pos);
}

/// The packed single edges of the model of a valid odd cube are its edges.
proof fn lemma_edge_back(n: nat, c: Seq<u128>)
    requires
        2 <= n < 128,
        is_odd(n),
        valid_cube(n, c),
    ensures
        edge_word(n, unpacked(n, c).0, unpacked(n, c).1) == edge_of(c[0]),
{
    lemma_points_len(n);
    lemma_group_bases(n, 0);
    lemma_group_bases(n, 1);
    lemma_group_positions(n, c, 1, 1, 0);
    lemma_group_perm(n, c, 1);
    lemma_place_upto(n, c, group_count(n));
    let u = unpacked(n, c);
    let w = edge_of(c[0]);
    let home = orbit_points(1, n, 0);
    let val = edge_val(u.0, u.1, n);
    let pos = pos_in(home, u.0, 8);
    assert forall|i: int| 0 <= i < 12 implies #[trigger] val(step(w, 15, i)) == blk(w, i) by {
        let j = step(w, 15, i);
        assert(j == gperm(n, c, 1, i));
        lemma_home_slice(n, 1, 0, i);
        lemma_home_distinct(1, n, 0);
        lemma_locate_distinct(home, i);
        assert(u.0[8 + j] == home[i]);
        assert(locate(home, u.0[8 + j]) == i);
        lemma_flip_back(i, gori(n, c, 1, i));
        assert(u.1[8 + j] == face_dir(edge_face(i, gori(n, c, 1, i))));
        let v = blk(w, i);
        lemma_blk_small(w, i);
        lemma_ori_bits(15, 4, 2, v, 0, 0);
        lemma_small_masks(v & 15);
        assert(j as u128 == v & 15);
    }
    assert(w >> 60u128 == 0);
    lemma_scatter_back(w, 15, 12, val, pos);
}

/// A valid packed cube can be turned into the geometric model.
pub proof fn lemma_valid_unpackable(n: nat, c: Seq<u128>)
    requires
        2 <= n < 128,
        valid_cube(n, c),
    ensures
        unpackable(n, c),
{
    lemma_points_len(n);
    assert forall|g: int, i: int| 0 <= g < group_count(n) && 0 <= i < group_len(n, g) implies group_base(n, g) + (
    #[trigger] group_pairs(n, c, g)[i]).0 < home_points(n).len() by {
        lemma_group_perm(n, c, g);
        lemma_group_bases(n, g);
        lemma_bases_increase(n, g, group_count(n) as int);
        lemma_group_bases(n, group_count(n) as int);
        assert(gperm(n, c, g, i) < group_len(n, g));
    }
    lemma_group_perm(n, c, 0);
    assert forall|i: int| 0 <= i < 8 implies (#[trigger] group_pairs(n, c, 0)[i]).1 < 3 by {
        assert(gori(n, c, 0, i) < 3);
    }
    if is_odd(n) {
        lemma_group_perm(n, c, 1);
        assert forall|i: int| 0 <= i < 12 implies (#[trigger] group_pairs(n, c, 1)[i]).0 < 12 by {
            assert(gperm(n, c, 1, i) < 12);
        }
    }
}

/// Packing the geometric model of a valid packed cube gives the packed
/// cube back.
pub proof fn law_pack_roundtrip(n: nat, c: Seq<u128>)
    requires
        2 <= n < 128,
        valid_cube(n, c),
    ensures
        unpackable(n, c),
        packed_vect(n, unpacked(n, c).0, unpacked(n, c).1) == c,
{
    lemma_valid_unpackable(n, c);
    lemma_points_len(n);
    let u = unpacked(n, c);
    let odd = n % 2;
    let g3 = kind_groups(3, n);
    let g4 = kind_groups(4, n);
    let g5 = kind_groups(5, n);
    let pv = packed_vect(n, u.0, u.1);
    assert(pv.len() == c.len());
    lemma_corner_back(n, c);
    assert(pv[0] == c[0]) by {
        lemma_word_bits(c[0], c[0], 0, 0);
        if is_odd(n) {
            lemma_edge_back(n, c);
            lemma_group_bases(n, 0);
            lemma_group_bases(n, 1);
            lemma_group_bases(n, 2);
            lemma_perm_group_word(n, c, 2, 2, 0);
            assert(center_word(n, u.0) == center_of(c[0]));
        }
    }
    assert forall|k: int| 1 <= k < c.len() implies #[trigger] pv[k] == c[k] by {
        let g = k + 2 * odd as int;
        lemma_group_bases(n, g);
        lemma_group_bases(n, group_count(n) as int);
        assert(g < group_count(n));
        assert(group_word_of(n, c, g) == (c[k], 31u128));
        assert(perm_valid(c[k], 24));
        if k - 1 < g3 {
            let idx = (k - 1) as nat;
            assert(group_base(n, g) == orbit_table(n)[3].0 + idx * 24);
            lemma_perm_group_word(n, c, g, 3, idx);
            assert(pv[k] == kind_words(n, u.0, 3)[k - 1]);
            assert(group_first(n, 3, idx) == group_base(n, g));
        } else if k - 1 - g3 < g4 {
            let idx = (k - 1 - g3) as nat;
            assert(group_base(n, g) == orbit_table(n)[4].0 + idx * 24);
            lemma_perm_group_word(n, c, g, 4, idx);
            assert(pv[k] == kind_words(n, u.0, 4)[k - 1 - g3]);
            assert(group_first(n, 4, idx) == group_base(n, g));
        } else {
            let idx = (k - 1 - g3 - g4) as nat;
            assert(idx < g5);
            assert(group_base(n, g) == orbit_table(n)[5].0 + idx * 24);
            lemma_perm_group_word(n, c, g, 5, idx);
            assert(pv[k] == kind_words(n, u.0, 5)[k - 1 - g3 - g4]);
            assert(group_first(n, 5, idx) == group_base(n, g));
        }
    }
    assert(pv =~= c);
}

/// The orbit group that holds cubie `q`.
proof fn lemma_find_group(n: nat, q: int, g: int) -> (r: int)
    requires
        2 <= n < 128,
        0 <= g <= group_count(n),
        group_base(n, g) <= q < home_points(n).len(),
    ensures
        g <= r < group_count(n),
        group_base(n, r) <= q < group_base(n, r) + group_len(n, r),
    decreases group_count(n) - g,
{
    lemma_group_bases(n, g);
    lemma_group_bases(n, group_count(n) as int);
    if g == group_count(n) {
        assert(false);
        g
    } else if q < group_base(n, g) + group_len(n, g) {
        g
    } else {
        lemma_find_group(n, q, g + 1)
    }
}

/// The model of the solved packed cube is the solved model.
proof fn lemma_unpacked_identity(n: nat)
    requires
        2 <= n < 128,
    ensures
        unpacked(n, identity_cube(n)) == (home_points(n), home_ori(n)),
{
    let c = identity_cube(n);
    law_identity_valid(n);
    lemma_id_words();
    lemma_word0_id(n);
    lemma_points_len(n);
    lemma_place_upto(n, c, group_count(n));
    let u = unpacked(n, c);
    assert forall|g: int, i: int| 0 <= g < group_count(n) && 0 <= i < group_len(n, g) implies #[trigger] gperm(n, c, g, i) == i by {
        lemma_group_perm(n, c, g);
        let w = group_word_of(n, c, g).0;
        if !(g == 0 || (is_odd(n) && g <= 2)) {
            assert(w == crate::arena::ID_24);
        }
        assert(blk(w, i) == i);
        lemma_small_masks(i as u128);
    }
    assert forall|q: int| 0 <= q < home_points(n).len() implies u.0[q] == home_points(n)[q] by {
        lemma_group_bases(n, 0);
        let g = lemma_find_group(n, q, 0);
        let i = q - group_base(n, g);
        assert(gperm(n, c, g, i) == i);
    }
    assert forall|i: int| 0 <= i < 8 implies #[trigger] gori(n, c, 0, i) == 0 by {
        lemma_group_perm(n, c, 0);
        assert(blk(corner_of(c[0]), i) == i);
        lemma_small_masks(i as u128);
    }
    assert forall|i: int| 0 <= i < 8 implies u.1[i] == home_ori(n)[i] by {
        assert(gperm(n, c, 0, i) == i);
        assert(gori(n, c, 0, i) == 0);
    }
    if is_odd(n) {
        assert forall|i: int| 0 <= i < 12 implies #[trigger] gori(n, c, 1, i) == 0 by {
            lemma_group_perm(n, c, 1);
            assert(blk(edge_of(c[0]), i) == i);
            lemma_small_masks(i as u128);
        }
        assert forall|q: int| 8 <= q < 20 implies #[trigger] u.1[q] == home_ori(n)[q] by {
            let i = q - 8;
            assert(gperm(n, c, 1, i) == i);
            assert(gori(n, c, 1, i) == 0);
        }
    }
    assert(u.0 =~= home_points(n));
    assert(u.1 =~= home_ori(n));
}

/// The solved model packs to the solved packed cube.
pub proof fn law_solved_packs(n: nat)
    requires
        2 <= n < 128,
    ensures
        packed_vect(n, home_points(n), home_ori(n)) == identity_cube(n),
{
    law_identity_valid(n);
    law_pack_roundtrip(n, identity_cube(n));
    lemma_unpacked_identity(n);
}

} // verus!
