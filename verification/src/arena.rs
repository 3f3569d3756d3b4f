//! An arena of packed cubes with the group operations of the cube.
//!
//! Every cube occupies `stride` consecutive `u128` words.  Word 0 holds
//! the corners (bits 0 .. 40) and, for odd dimensions, the single edges
//! (bits 40 .. 100) and the fixed centers (bits 100 ..).  Each further
//! word holds one 24-piece orbit.  The two slots after the user cubes are
//! scratch space for aliasing and for [`CubeArena::mul`].
use vstd::prelude::*;

use crate::bits::blk;
use crate::laws::{
    law_identity_valid, law_inverse, law_pow_add, law_pow_one, law_pow_valid,
    lemma_valid_composable, valid_cube,
};
use crate::ops::{
    spec_pack, unpack_seq, get_center, get_corner, get_edge, small_positions, spec_add_ori,
    spec_add_perm, spec_sub_ori, spec_sub_perm, word_positions,
};

pub use crate::kinds::{Center, Corner, Edge, Piece24, PieceKind};
pub use crate::numbers::{gcd, mcm};
pub use crate::ops::{
    add_ori, add_perm, edge_check, orientation_check, pack_u128, sub_ori, sub_perm, unpack_u128,
};
pub use crate::random::shuffle;
pub use crate::walks::{cycle_decomp, orbit_order, parity};

verus! {

/// Identity (solved) packed corners.
pub const ID_CORNER: u128 = 247132686368;

/// Identity packed single edges.
pub const ID_EDGE: u128 = 407901468851537952;

/// Identity packed fixed centers.
pub const ID_CENTER: u128 = 172066848;

/// Identity packed 24-piece orbit.
pub const ID_24: u128 = 984818244535754528103549039458486304;

/// Identity single edges and fixed centers, placed in the first word of a cube.
pub const ID_ODD_HIGH: u128 = 218120643595071921725640057825106329600;

/// Number of concentric rings of pieces between a corner and an edge.
pub open spec fn k_max(n: nat) -> nat {
    ((n - 2 - n % 2) / 2) as nat
}

/// Number of packed words of one cube of dimension `n`.
pub open spec fn arena_stride(n: nat) -> nat {
    let k = k_max(n);
    k * k + k + k * (n % 2) + 1
}

pub open spec fn is_odd(n: nat) -> bool {
    n % 2 == 1
}

/// The corner part of the first word of a cube.
pub open spec fn corner_of(w: u128) -> u128 {
    w & 0xff_ffff_ffff
}

/// The single-edge part of the first word of a cube.
pub open spec fn edge_of(w: u128) -> u128 {
    (w >> 40) & 0xfff_ffff_ffff_ffff
}

/// The fixed-center part of the first word of a cube.
pub open spec fn center_of(w: u128) -> u128 {
    w >> 100
}

/// The first word of the solved cube.
pub open spec fn id_word0(n: nat) -> u128 {
    if is_odd(n) {
        ID_CORNER | ID_ODD_HIGH
    } else {
        ID_CORNER
    }
}

/// The solved cube of dimension `n`.
pub open spec fn identity_cube(n: nat) -> Seq<u128> {
    Seq::new(arena_stride(n), |k: int| if k == 0 { id_word0(n) } else { ID_24 })
}

/// First word of `a + b`.
pub open spec fn add_word0(n: nat, a: u128, b: u128) -> u128 {
    let c = spec_add_ori::<Corner>(corner_of(a), corner_of(b));
    if is_odd(n) {
        c | (spec_add_ori::<Edge>(edge_of(a), edge_of(b)) << 40) | (spec_add_perm::<Center>(
            center_of(a),
            center_of(b),
        ) << 100)
    } else {
        c
    }
}

/// First word of `a - b`.
pub open spec fn sub_word0(n: nat, a: u128, b: u128) -> u128 {
    let c = spec_sub_ori::<Corner>(corner_of(a), corner_of(b));
    if is_odd(n) {
        c | (spec_sub_ori::<Edge>(edge_of(a), edge_of(b)) << 40) | (spec_sub_perm::<Center>(
            center_of(a),
            center_of(b),
        ) << 100)
    } else {
        c
    }
}

/// The composition `a + b` of two cubes: first `a`, then `b`.
pub open spec fn cube_add(n: nat, a: Seq<u128>, b: Seq<u128>) -> Seq<u128> {
    Seq::new(
        a.len(),
        |k: int|
            if k == 0 {
                add_word0(n, a[0], b[0])
            } else {
                spec_add_perm::<Piece24>(a[k], b[k])
            },
    )
}

/// The difference `a - b` of two cubes: `a` followed by the inverse of `b`.
pub open spec fn cube_sub(n: nat, a: Seq<u128>, b: Seq<u128>) -> Seq<u128> {
    Seq::new(
        a.len(),
        |k: int|
            if k == 0 {
                sub_word0(n, a[0], b[0])
            } else {
                spec_sub_perm::<Piece24>(a[k], b[k])
            },
    )
}

/// The inverse `-a` of a cube.
pub open spec fn cube_neg(n: nat, a: Seq<u128>) -> Seq<u128> {
    cube_sub(n, identity_cube(n), a)
}

/// `b` names only positions that the composition can shift to: the
/// condition under which adding or subtracting `b` does not overflow.
pub open spec fn composable(n: nat, b: Seq<u128>) -> bool {
    &&& b.len() == arena_stride(n)
    &&& is_odd(n) ==> small_positions(edge_of(b[0]), 15, 12)
    &&& is_odd(n) ==> word_positions(center_of(b[0]), 6)
    &&& forall|k: int| 1 <= k < b.len() ==> word_positions(#[trigger] b[k], 24)
}

/// `a` added to itself `k` times (the identity for `k == 0`).
pub open spec fn cube_pow(n: nat, a: Seq<u128>, k: nat) -> Seq<u128>
    decreases k,
{
    if k == 0 {
        identity_cube(n)
    } else {
        cube_add(n, cube_pow(n, a, (k - 1) as nat), a)
    }
}

/// `a` multiplied by the integer `k`: a power of `a`, or of `-a` for negative `k`.
pub open spec fn cube_mul(n: nat, a: Seq<u128>, k: int) -> Seq<u128> {
    if k >= 0 {
        cube_pow(n, a, k as nat)
    } else {
        cube_pow(n, cube_neg(n, a), (-k) as nat)
    }
}

/// A packed cube arena holding `len` user cubes of one dimension, plus two
/// scratch slots.
#[derive(Debug, Clone)]
pub struct CubeArena {
    /// All cubes, `stride` words each; the scratch slots are at the tail.
    data: Vec<u128>,
    /// Number of user cubes (excluding the scratch slots).
    len: usize,
    /// (first word, number of words) of the center-corner, coupled-edge
    /// and center-edge-wing families of 24-piece orbits.
    orbit: [(u16, u16); 3],
    /// Number of words per cube.
    stride: u16,
    /// Number of orbit groups per cube: `stride`, plus 2 for odd dimensions.
    len_orbits: u16,
    /// Dimension of the cube.
    n: u8,
}

impl CubeArena {
    /// The arena is consistent: its dimension, stride and storage agree.
    pub closed spec fn wf(&self) -> bool {
        let n = self.n as nat;
        let k = k_max(n);
        &&& n >= 2
        &&& self.stride == arena_stride(n)
        &&& self.len_orbits == self.stride + 2 * (n % 2)
        &&& self.orbit[0] == (1u16, (k * k) as u16)
        &&& self.orbit[1] == ((1 + k * k) as u16, k as u16)
        &&& self.orbit[2] == (((1 + k * k + k) * (n % 2)) as u16, (k * (n % 2)) as u16)
        &&& self.len >= 1
        &&& self.len + 2 <= usize::MAX
        &&& self.data@.len() == (self.len + 2) * self.stride
    }

    /// Dimension of the cubes.
    pub closed spec fn spec_n(&self) -> nat {
        self.n as nat
    }

    /// Number of user cubes.
    pub closed spec fn spec_len(&self) -> nat {
        self.len as nat
    }

    /// Number of words per cube.
    pub closed spec fn spec_stride(&self) -> nat {
        self.stride as nat
    }

    /// The packed words of the cube in slot `i`.
    pub closed spec fn cube(&self, i: int) -> Seq<u128> {
        self.data@.subrange(i * self.stride, (i + 1) * self.stride)
    }

    /// Number of slots, scratch slots included.
    pub open spec fn slots(&self) -> nat {
        self.spec_len() + 2
    }

    /// What a consistent arena guarantees about its views.
    pub proof fn lemma_wf(&self)
        requires
            self.wf(),
        ensures
            self.spec_n() >= 2,
            self.spec_len() >= 1,
            self.spec_stride() == arena_stride(self.spec_n()),
            forall|i: int| 0 <= i < self.slots() ==> (#[trigger] self.cube(i)).len() == self.spec_stride(),
    {
        assert forall|i: int| 0 <= i < self.slots() implies (#[trigger] self.cube(i)).len()
            == self.spec_stride() by {
            lemma_slot_range(i, self.slots() as int, self.stride as int);
        }
    }
}

pub(crate) proof fn lemma_slot_range(i: int, slots: int, stride: int)
    requires
        0 <= i < slots,
        stride >= 0,
    ensures
        0 <= i * stride,
        i * stride + stride == (i + 1) * stride,
        (i + 1) * stride <= slots * stride,
{
    assert(0 <= i * stride) by (nonlinear_arith)
        requires
            0 <= i,
            stride >= 0,
    ;
    assert((i + 1) * stride <= slots * stride) by (nonlinear_arith)
        requires
            i < slots,
            stride >= 0,
    ;
    assert(i * stride + stride == (i + 1) * stride) by (nonlinear_arith);
}

/// Positions `i * stride + k` with `k < stride` belong to slot `i` only.
pub(crate) proof fn lemma_slot_disjoint(i: int, j: int, k: int, stride: int)
    requires
        0 <= i,
        0 <= j,
        0 <= k < stride,
        i != j,
    ensures
        !(j * stride <= i * stride + k < (j + 1) * stride),
{
    if j < i {
        assert((j + 1) * stride <= i * stride) by (nonlinear_arith)
            requires
                j + 1 <= i,
                0 <= k < stride,
        ;
    } else {
        assert(i * stride + k < j * stride) by (nonlinear_arith)
            requires
                i + 1 <= j,
                0 <= k < stride,
        ;
    }
}

impl CubeArena {
    /// Writes word `k` of slot `index`.
    pub(crate) fn write_word(&mut self, index: usize, k: usize, w: u128)
        requires
            old(self).wf(),
            index < old(self).slots(),
            k < old(self).spec_stride(),
        ensures
            final(self).wf(),
            final(self).spec_n() == old(self).spec_n(),
            final(self).spec_len() == old(self).spec_len(),
            final(self).spec_stride() == old(self).spec_stride(),
            forall|i: int|
                0 <= i < old(self).slots() ==> #[trigger] final(self).cube(i) == (if i == index {
                    old(self).cube(i).update(k as int, w)
                } else {
                    old(self).cube(i)
                }),
    {
        let ghost stride = self.stride as int;
        let total = self.data.len();
        proof {
            lemma_slot_range(index as int, self.slots() as int, stride);
            assert(index * stride + k < total);
        }
        let pos = index * (self.stride as usize) + k;
        self.data.set(pos, w);
        proof {
            assert forall|i: int| 0 <= i < old(self).slots() implies #[trigger] self.cube(i) == (
            if i == index {
                old(self).cube(i).update(k as int, w)
            } else {
                old(self).cube(i)
            }) by {
                lemma_slot_range(i, self.slots() as int, stride);
                if i == index {
                    assert(self.cube(i) =~= old(self).cube(i).update(k as int, w));
                } else {
                    lemma_slot_disjoint(index as int, i, k as int, stride);
                    assert(self.cube(i) =~= old(self).cube(i));
                }
            }
        }
    }
}


proof fn lemma_mask_le(x: u128, m: u128)
    ensures
        x & m <= m,
        (x & 31) >> 3 <= 3,
        (x & 31) >> 4 <= 1,
{
    assert(x & m <= m && (x & 31) >> 3 <= 3 && (x & 31) >> 4 <= 1) by (bit_vector);
}

/// The corner part of any word names positions that fit in a `u64` shift,
/// and subtracting any corner orientation does not underflow.
proof fn lemma_corner_composable(a: u128, b: u128)
    ensures
        small_positions(b, 7, 8),
        forall|i: int| 0 <= i < 8 ==> #[trigger] (blk(b, i) >> 3) <= (blk(a, i) >> 3) + 3,
{
    assert forall|i: int| 0 <= i < 8 implies #[trigger] (blk(b, i) & 7) <= 12 by {
        lemma_mask_le(b >> ((5 * i) as u128), 7);
        lemma_mask_le(blk(b, i), 7);
    }
    assert forall|i: int| 0 <= i < 8 implies #[trigger] (blk(b, i) >> 3) <= (blk(a, i) >> 3) + 3 by {
        lemma_mask_le(b >> ((5 * i) as u128), 7);
    }
}

/// Subtracting any edge orientation does not underflow.
proof fn lemma_edge_unders(a: u128, b: u128)
    ensures
        forall|i: int| 0 <= i < 12 ==> #[trigger] (blk(b, i) >> 4) <= (blk(a, i) >> 4) + 2,
{
    assert forall|i: int| 0 <= i < 12 implies #[trigger] (blk(b, i) >> 4) <= (blk(a, i) >> 4) + 2 by {
        lemma_mask_le(b >> ((5 * i) as u128), 7);
    }
}

proof fn lemma_id_high()
    ensures
        (ID_EDGE << 40u128) | (ID_CENTER << 100u128) == ID_ODD_HIGH,
{
    assert((407901468851537952u128 << 40u128) | (172066848u128 << 100u128)
        == 218120643595071921725640057825106329600u128) by (bit_vector);
}

impl CubeArena {
    /// Reads word `k` of slot `index`.
    pub(crate) fn read_word(&self, index: usize, k: usize) -> (r: u128)
        requires
            self.wf(),
            index < self.slots(),
            k < self.spec_stride(),
        ensures
            r == self.cube(index as int)[k as int],
    {
        let ghost stride = self.stride as int;
        let total = self.data.len();
        proof {
            lemma_slot_range(index as int, self.slots() as int, stride);
            assert(index * stride + k < total);
        }
        self.data[index * (self.stride as usize) + k]
    }

    /// The first word of the composition `x + y`.
    fn add_first(&self, x: u128, y: u128) -> (r: u128)
        requires
            self.wf(),
            is_odd(self.spec_n()) ==> small_positions(edge_of(y), 15, 12),
            is_odd(self.spec_n()) ==> word_positions(center_of(y), 6),
        ensures
            r == add_word0(self.spec_n(), x, y),
    {
        proof {
            lemma_corner_composable(corner_of(x), corner_of(y));
        }
        let mut block = add_ori::<Corner>(get_corner(x), get_corner(y));
        if self.n % 2 == 1 {
            block = block | (add_ori::<Edge>(get_edge(x), get_edge(y)) << 40u128);
            block = block | (add_perm::<Center>(get_center(x), get_center(y)) << 100u128);
        }
        block
    }

    /// The first word of the difference `x - y`.
    fn sub_first(&self, x: u128, y: u128) -> (r: u128)
        requires
            self.wf(),
            is_odd(self.spec_n()) ==> small_positions(edge_of(y), 15, 12),
            is_odd(self.spec_n()) ==> word_positions(center_of(y), 6),
        ensures
            r == sub_word0(self.spec_n(), x, y),
    {
        proof {
            lemma_corner_composable(corner_of(x), corner_of(y));
            lemma_edge_unders(edge_of(x), edge_of(y));
        }
        let mut block = sub_ori::<Corner>(get_corner(x), get_corner(y));
        if self.n % 2 == 1 {
            block = block | (sub_ori::<Edge>(get_edge(x), get_edge(y)) << 40u128);
            block = block | (sub_perm::<Center>(get_center(x), get_center(y)) << 100u128);
        }
        block
    }
}


impl CubeArena {
    /// Creates an arena holding `len` user cubes of dimension `n`, plus two
    /// scratch slots; every slot holds the solved cube.
    pub fn new_arena(n: u8, len: usize) -> (r: Self)
        requires
            n >= 2,
            len > 0,
            (len + 2) * arena_stride(n as nat) <= usize::MAX,
        ensures
            r.wf(),
            r.spec_n() == n,
            r.spec_len() == len,
            forall|i: int| 0 <= i < r.slots() ==> #[trigger] r.cube(i) == identity_cube(n as nat),
    {
        let n_mod_2 = (n % 2) as u16;
        let k_max = (n as u16 - 2 - n_mod_2) / 2;
        assert(k_max * k_max <= 126 * 126) by (nonlinear_arith)
            requires
                k_max <= 126,
        ;
        assert(k_max * n_mod_2 <= k_max) by (nonlinear_arith)
            requires
                n_mod_2 <= 1,
        ;
        assert((1 + k_max * k_max + k_max) * n_mod_2 <= 1 + k_max * k_max + k_max)
            by (nonlinear_arith)
            requires
                n_mod_2 <= 1,
        ;
        let stride = k_max * k_max + k_max + k_max * n_mod_2 + 1;
        let orbit = [
            (1u16, k_max * k_max),
            (1 + k_max * k_max, k_max),
            ((1 + k_max * k_max + k_max) * n_mod_2, k_max * n_mod_2),
        ];
        assert(len + 2 <= (len + 2) * arena_stride(n as nat)) by (nonlinear_arith)
            requires
                arena_stride(n as nat) >= 1,
        ;
        let slots = len + 2;
        let data = vec![ID_24; slots * stride as usize];
        let len_orbits = stride + n_mod_2 * 2;
        let mut arena = Self { data, orbit, n, len, stride, len_orbits };
        proof {
            lemma_id_high();
            assert forall|j: int| 0 <= j < arena.data@.len() implies arena.data@[j] == ID_24 by {
                assert(vstd::pervasive::cloned(ID_24, arena.data@[j]));
            }
            assert forall|i: int| 0 <= i < arena.slots() implies #[trigger] arena.cube(i)
                =~= Seq::new(arena.spec_stride(), |k: int| ID_24) by {
                lemma_slot_range(i, arena.slots() as int, stride as int);
            }
        }
        let w0 = if n % 2 == 1 {
            ID_CORNER | ((ID_EDGE << 40u128) | (ID_CENTER << 100u128))
        } else {
            ID_CORNER
        };
        let mut i: usize = 0;
        while i < slots
            invariant
                arena.wf(),
                arena.spec_n() == n,
                arena.spec_len() == len,
                slots == len + 2,
                i <= slots,
                w0 == id_word0(n as nat),
                forall|j: int| 0 <= j < i ==> #[trigger] arena.cube(j) == identity_cube(n as nat),
                forall|j: int|
                    i <= j < slots ==> #[trigger] arena.cube(j) == Seq::new(
                        arena.spec_stride(),
                        |k: int| ID_24,
                    ),
            decreases slots - i,
        {
            arena.write_word(i, 0, w0);
            assert(arena.cube(i as int) =~= identity_cube(n as nat));
            i = i + 1;
        }
        arena
    }

    /// The packed words of the cube at `index`.
    pub fn get_cube(&self, index: usize) -> (r: &[u128])
        requires
            self.wf(),
            index < self.spec_len(),
        ensures
            r@ == self.cube(index as int),
    {
        let ghost stride = self.stride as int;
        proof {
            lemma_slot_range(index as int, self.slots() as int, stride);
        }
        let total = self.data.len();
        assert(index * stride + stride <= total);
        let start = index * (self.stride as usize);
        let end = start + self.stride as usize;
        let s = self.data.as_slice();
        &s[start..end]
    }

    /// Copies the packed words of `slice` into the slot `index`.
    pub fn cube_from_slice(&mut self, index: usize, slice: &[u128])
        requires
            old(self).wf(),
            index < old(self).slots(),
            slice@.len() == old(self).spec_stride(),
        ensures
            final(self).wf(),
            final(self).spec_n() == old(self).spec_n(),
            final(self).spec_len() == old(self).spec_len(),
            final(self).cube(index as int) == slice@,
            forall|i: int|
                0 <= i < old(self).slots() && i != index ==> #[trigger] final(self).cube(i) == old(self).cube(i),
    {
        proof {
            self.lemma_wf();
        }
        let stride = self.stride as usize;
        let ghost old_self = *self;
        let mut k: usize = 0;
        while k < stride
            invariant
                self.wf(),
                self.spec_n() == old_self.spec_n(),
                self.spec_len() == old_self.spec_len(),
                self.spec_stride() == stride,
                index < self.slots(),
                slice@.len() == stride,
                k <= stride,
                self.cube(index as int).len() == stride,
                forall|m: int| 0 <= m < k ==> #[trigger] self.cube(index as int)[m] == slice@[m],
                forall|i: int|
                    0 <= i < self.slots() && i != index ==> #[trigger] self.cube(i) == old_self.cube(i),
            decreases stride - k,
        {
            self.write_word(index, k, slice[k]);
            k = k + 1;
        }
        assert(self.cube(index as int) =~= slice@);
    }

    /// Copies cube `a` to cube `b`; nothing happens when `a == b`.
    pub fn clone_cube(&mut self, a: usize, b: usize)
        requires
            old(self).wf(),
            a < old(self).slots(),
            b < old(self).slots(),
        ensures
            final(self).wf(),
            final(self).spec_n() == old(self).spec_n(),
            final(self).spec_len() == old(self).spec_len(),
            final(self).cube(b as int) == old(self).cube(a as int),
            forall|i: int|
                0 <= i < old(self).slots() && i != b ==> #[trigger] final(self).cube(i) == old(self).cube(i),
    {
        if a == b {
            return;
        }
        proof {
            self.lemma_wf();
        }
        let stride = self.stride as usize;
        let ghost old_self = *self;
        let mut k: usize = 0;
        while k < stride
            invariant
                self.wf(),
                self.spec_n() == old_self.spec_n(),
                self.spec_len() == old_self.spec_len(),
                self.spec_stride() == stride,
                a < self.slots(),
                b < self.slots(),
                a != b,
                k <= stride,
                old_self.cube(a as int).len() == stride,
                self.cube(b as int).len() == stride,
                forall|m: int|
                    0 <= m < k ==> #[trigger] self.cube(b as int)[m] == old_self.cube(a as int)[m],
                forall|i: int|
                    0 <= i < self.slots() && i != b ==> #[trigger] self.cube(i) == old_self.cube(i),
            decreases stride - k,
        {
            let w = self.read_word(a, k);
            self.write_word(b, k, w);
            k = k + 1;
        }
        assert(self.cube(b as int) =~= old_self.cube(a as int));
    }

    /// Sets cube `index` to the solved configuration.
    pub fn identity(&mut self, index: usize)
        requires
            old(self).wf(),
            index < old(self).slots(),
        ensures
            final(self).wf(),
            final(self).spec_n() == old(self).spec_n(),
            final(self).spec_len() == old(self).spec_len(),
            final(self).cube(index as int) == identity_cube(old(self).spec_n()),
            forall|i: int|
                0 <= i < old(self).slots() && i != index ==> #[trigger] final(self).cube(i) == old(self).cube(i),
    {
        proof {
            self.lemma_wf();
        }
        let w0 = if self.n % 2 == 1 {
            ID_CORNER | ID_ODD_HIGH
        } else {
            ID_CORNER
        };
        self.write_word(index, 0, w0);
        let ghost old_self = *self;
        if self.n > 3 {
            let stride = self.stride as usize;
            let mut k: usize = 1;
            while k < stride
                invariant
                    self.wf(),
                    self.spec_n() == old_self.spec_n(),
                    self.spec_len() == old_self.spec_len(),
                    self.spec_stride() == stride,
                    index < self.slots(),
                    1 <= k <= stride,
                    self.cube(index as int).len() == stride,
                    self.cube(index as int)[0] == w0,
                    forall|m: int| 1 <= m < k ==> #[trigger] self.cube(index as int)[m] == ID_24,
                    forall|i: int|
                        0 <= i < self.slots() && i != index ==> #[trigger] self.cube(i)
                            == old_self.cube(i),
                decreases stride - k,
            {
                self.write_word(index, k, ID_24);
                k = k + 1;
            }
        }
        proof {
            self.lemma_wf();
            assert(w0 == id_word0(self.n as nat));
            assert(self.cube(index as int).len() == arena_stride(self.n as nat));
            assert(self.cube(index as int)[0] == w0);
            assert(self.n <= 3 ==> self.cube(index as int).len() == 1) by {
                if self.n <= 3 {
                    assert(self.n == 2 || self.n == 3);
                    let k = k_max(self.n as nat);
                    assert(k == 0);
                    assert(k * k + k + k * (self.n as nat % 2) + 1 == 1) by (nonlinear_arith)
                        requires
                            k == 0,
                    ;
                    assert(arena_stride(self.n as nat) == 1);
                    assert(self.spec_stride() == 1);
                    assert(self.cube(index as int).len() == self.spec_stride());
                }
            }
        }
        assert(self.cube(index as int) =~= identity_cube(self.n as nat));
    }

    /// Whether cubes `a` and `b` have identical packed words.
    pub fn eq(&self, a: usize, b: usize) -> (r: bool)
        requires
            self.wf(),
            a < self.spec_len(),
            b < self.spec_len(),
        ensures
            r == (self.cube(a as int) == self.cube(b as int)),
    {
        proof {
            self.lemma_wf();
        }
        let stride = self.stride as usize;
        let mut k: usize = 0;
        while k < stride
            invariant
                self.wf(),
                self.spec_stride() == stride,
                a < self.slots(),
                b < self.slots(),
                k <= stride,
                self.cube(a as int).len() == stride,
                self.cube(b as int).len() == stride,
                forall|m: int| 0 <= m < k ==> self.cube(a as int)[m] == self.cube(b as int)[m],
            decreases stride - k,
        {
            if self.read_word(a, k) != self.read_word(b, k) {
                return false;
            }
            k = k + 1;
        }
        assert(self.cube(a as int) =~= self.cube(b as int));
        true
    }

    /// Number of words per cube.
    pub fn stride(&self) -> (r: u16)
        ensures
            r == self.spec_stride(),
    {
        self.stride
    }

    /// Number of user cubes (not counting the scratch slots).
    pub fn len(&self) -> (r: usize)
        ensures
            r == self.spec_len(),
    {
        self.len
    }

    /// Number of slots, the two scratch slots included.
    pub fn total_len(&self) -> (r: usize)
        requires
            self.wf(),
        ensures
            r == self.slots(),
    {
        self.len + 2
    }

    /// The second scratch slot, used by [`CubeArena::mul`].
    pub fn aux_mul(&self) -> (r: usize)
        requires
            self.wf(),
        ensures
            r == self.spec_len() + 1,
    {
        self.len + 1
    }

    /// Cube dimension.
    pub fn n(&self) -> (r: u8)
        ensures
            r == self.spec_n(),
    {
        self.n
    }
}


/// Word `k` of `a + b`.
pub open spec fn add_word(n: nat, a: Seq<u128>, b: Seq<u128>, k: int) -> u128 {
    if k == 0 {
        add_word0(n, a[0], b[0])
    } else {
        spec_add_perm::<Piece24>(a[k], b[k])
    }
}

/// Word `k` of `a - b`.
pub open spec fn sub_word(n: nat, a: Seq<u128>, b: Seq<u128>, k: int) -> u128 {
    if k == 0 {
        sub_word0(n, a[0], b[0])
    } else {
        spec_sub_perm::<Piece24>(a[k], b[k])
    }
}

impl CubeArena {
    /// Word-by-word `c = a + b` or `c = a - b` where `b` is given by its words.
    /// Word `k` of the result depends only on words `k` of the operands, so
    /// `c` may be `a`.
    fn combine_with(&mut self, a: usize, b: &[u128], c: usize, subtract: bool)
        requires
            old(self).wf(),
            a < old(self).slots(),
            c < old(self).slots(),
            composable(old(self).spec_n(), b@),
        ensures
            final(self).wf(),
            final(self).spec_n() == old(self).spec_n(),
            final(self).spec_len() == old(self).spec_len(),
            final(self).cube(c as int) == (if subtract {
                cube_sub(old(self).spec_n(), old(self).cube(a as int), b@)
            } else {
                cube_add(old(self).spec_n(), old(self).cube(a as int), b@)
            }),
            forall|i: int|
                0 <= i < old(self).slots() && i != c ==> #[trigger] final(self).cube(i) == old(self).cube(i),
    {
        proof {
            self.lemma_wf();
        }
        let ghost old_self = *self;
        let ghost n = self.n as nat;
        let ghost aa = self.cube(a as int);
        let ghost bb = b@;
        let stride = self.stride as usize;
        let mut k: usize = 0;
        while k < stride
            invariant
                self.wf(),
                self.spec_n() == n,
                n == old_self.spec_n(),
                self.spec_len() == old_self.spec_len(),
                self.spec_stride() == stride,
                a < self.slots(),
                c < self.slots(),
                bb == b@,
                composable(n, bb),
                aa == old_self.cube(a as int),
                aa.len() == stride,
                bb.len() == stride,
                k <= stride,
                self.cube(c as int).len() == stride,
                self.cube(a as int).len() == stride,
                forall|m: int| k <= m < stride ==> #[trigger] self.cube(a as int)[m] == aa[m],
                forall|m: int|
                    0 <= m < k ==> #[trigger] self.cube(c as int)[m] == (if subtract {
                        sub_word(n, aa, bb, m)
                    } else {
                        add_word(n, aa, bb, m)
                    }),
                forall|i: int|
                    0 <= i < self.slots() && i != c ==> #[trigger] self.cube(i) == old_self.cube(i),
            decreases stride - k,
        {
            let x = self.read_word(a, k);
            let y = b[k];
            let w = if k == 0 {
                if subtract {
                    self.sub_first(x, y)
                } else {
                    self.add_first(x, y)
                }
            } else {
                assert(word_positions(bb[k as int], 24));
                if subtract {
                    sub_perm::<Piece24>(x, y)
                } else {
                    add_perm::<Piece24>(x, y)
                }
            };
            self.write_word(c, k, w);
            k = k + 1;
        }
        proof {
            if subtract {
                assert(self.cube(c as int) =~= cube_sub(n, aa, bb));
            } else {
                assert(self.cube(c as int) =~= cube_add(n, aa, bb));
            }
        }
    }

    /// Word-by-word `c = a + b` or `c = a - b` for slots `a`, `b` and `c`.
    /// Word `k` of the result depends only on words `k` of the operands, so
    /// `c` may be `a`.
    fn combine(&mut self, a: usize, b: usize, c: usize, subtract: bool)
        requires
            old(self).wf(),
            a < old(self).slots(),
            b < old(self).slots(),
            c < old(self).slots(),
            composable(old(self).spec_n(), old(self).cube(b as int)),
        ensures
            final(self).wf(),
            final(self).spec_n() == old(self).spec_n(),
            final(self).spec_len() == old(self).spec_len(),
            final(self).cube(c as int) == (if subtract {
                cube_sub(old(self).spec_n(), old(self).cube(a as int), old(self).cube(b as int))
            } else {
                cube_add(old(self).spec_n(), old(self).cube(a as int), old(self).cube(b as int))
            }),
            forall|i: int|
                0 <= i < old(self).slots() && i != c ==> #[trigger] final(self).cube(i) == old(self).cube(i),
    {
        proof {
            self.lemma_wf();
        }
        let ghost old_self = *self;
        let ghost n = self.n as nat;
        let ghost aa = self.cube(a as int);
        let ghost bb = self.cube(b as int);
        let stride = self.stride as usize;
        let mut k: usize = 0;
        while k < stride
            invariant
                self.wf(),
                self.spec_n() == n,
                n == old_self.spec_n(),
                self.spec_len() == old_self.spec_len(),
                self.spec_stride() == stride,
                a < self.slots(),
                c < self.slots(),
                b < self.slots(),
                bb == old_self.cube(b as int),
                self.cube(b as int).len() == stride,
                forall|m: int| k <= m < stride ==> #[trigger] self.cube(b as int)[m] == bb[m],
                composable(n, bb),
                aa == old_self.cube(a as int),
                aa.len() == stride,
                bb.len() == stride,
                k <= stride,
                self.cube(c as int).len() == stride,
                self.cube(a as int).len() == stride,
                forall|m: int| k <= m < stride ==> #[trigger] self.cube(a as int)[m] == aa[m],
                forall|m: int|
                    0 <= m < k ==> #[trigger] self.cube(c as int)[m] == (if subtract {
                        sub_word(n, aa, bb, m)
                    } else {
                        add_word(n, aa, bb, m)
                    }),
                forall|i: int|
                    0 <= i < self.slots() && i != c ==> #[trigger] self.cube(i) == old_self.cube(i),
            decreases stride - k,
        {
            let x = self.read_word(a, k);
            let y = self.read_word(b, k);
            let w = if k == 0 {
                if subtract {
                    self.sub_first(x, y)
                } else {
                    self.add_first(x, y)
                }
            } else {
                assert(word_positions(bb[k as int], 24));
                if subtract {
                    sub_perm::<Piece24>(x, y)
                } else {
                    add_perm::<Piece24>(x, y)
                }
            };
            self.write_word(c, k, w);
            k = k + 1;
        }
        proof {
            if subtract {
                assert(self.cube(c as int) =~= cube_sub(n, aa, bb));
            } else {
                assert(self.cube(c as int) =~= cube_add(n, aa, bb));
            }
        }
    }

    /// Copies the words of slot `index` into a fresh vector.
    pub(crate) fn cube_words(&self, index: usize) -> (r: Vec<u128>)
        requires
            self.wf(),
            index < self.slots(),
        ensures
            r@ == self.cube(index as int),
    {
        proof {
            self.lemma_wf();
        }
        let stride = self.stride as usize;
        let mut v: Vec<u128> = Vec::with_capacity(stride);
        let mut k: usize = 0;
        while k < stride
            invariant
                self.wf(),
                self.spec_stride() == stride,
                index < self.slots(),
                self.cube(index as int).len() == stride,
                k <= stride,
                v@ == self.cube(index as int).subrange(0, k as int),
            decreases stride - k,
        {
            v.push(self.read_word(index, k));
            k = k + 1;
            assert(v@ =~= self.cube(index as int).subrange(0, k as int));
        }
        assert(v@ =~= self.cube(index as int));
        v
    }

    /// `c = a + b` (group composition: `a`, then `b`).  When `c` aliases an
    /// operand, the operand is first copied to the scratch slot `len`.
    pub fn add(&mut self, a: usize, b: usize, c: usize)
        requires
            old(self).wf(),
            a < old(self).slots(),
            b < old(self).slots(),
            c < old(self).slots(),
            composable(old(self).spec_n(), old(self).cube(b as int)),
            b == c && a != c ==> a != old(self).spec_len(),
            a == c && b != c ==> b != old(self).spec_len(),
        ensures
            final(self).wf(),
            final(self).spec_n() == old(self).spec_n(),
            final(self).spec_len() == old(self).spec_len(),
            final(self).cube(c as int) == cube_add(
                old(self).spec_n(),
                old(self).cube(a as int),
                old(self).cube(b as int),
            ),
            forall|i: int|
                0 <= i < old(self).slots() && i != c && i != old(self).spec_len() ==> #[trigger] final(self).cube(i) == old(self).cube(i),
    {
        let ghost aa = self.cube(a as int);
        let ghost bb = self.cube(b as int);
        let mut a = a;
        let mut b = b;
        let scratch = self.len;
        if a == c && b == c {
            self.clone_cube(a, scratch);
            a = scratch;
            b = scratch;
        } else if a == c {
            self.clone_cube(a, scratch);
            a = scratch;
        } else if b == c {
            self.clone_cube(b, scratch);
            b = scratch;
        }
        assert(self.cube(a as int) == aa && self.cube(b as int) == bb);
        self.combine(a, b, c, false);
    }

    /// `c = a - b` (`a` followed by the inverse of `b`).  When `c` aliases
    /// an operand, the operand is first copied to the scratch slot `len`.
    pub fn sub(&mut self, a: usize, b: usize, c: usize)
        requires
            old(self).wf(),
            a < old(self).slots(),
            b < old(self).slots(),
            c < old(self).slots(),
            composable(old(self).spec_n(), old(self).cube(b as int)),
            b == c && a != c ==> a != old(self).spec_len(),
            a == c && b != c ==> b != old(self).spec_len(),
        ensures
            final(self).wf(),
            final(self).spec_n() == old(self).spec_n(),
            final(self).spec_len() == old(self).spec_len(),
            final(self).cube(c as int) == cube_sub(
                old(self).spec_n(),
                old(self).cube(a as int),
                old(self).cube(b as int),
            ),
            forall|i: int|
                0 <= i < old(self).slots() && i != c && i != old(self).spec_len() ==> #[trigger] final(self).cube(i) == old(self).cube(i),
    {
        let ghost aa = self.cube(a as int);
        let ghost bb = self.cube(b as int);
        let mut a = a;
        let mut b = b;
        let scratch = self.len;
        if a == c && b == c {
            self.clone_cube(a, scratch);
            a = scratch;
            b = scratch;
        } else if a == c {
            self.clone_cube(a, scratch);
            a = scratch;
        } else if b == c {
            self.clone_cube(b, scratch);
            b = scratch;
        }
        assert(self.cube(a as int) == aa && self.cube(b as int) == bb);
        self.combine(a, b, c, true);
    }

    /// `c = a + b` where `b` is given by its packed words.
    pub fn add_slice(&mut self, a: usize, b: &[u128], c: usize)
        requires
            old(self).wf(),
            a < old(self).slots(),
            c < old(self).slots(),
            composable(old(self).spec_n(), b@),
        ensures
            final(self).wf(),
            final(self).spec_n() == old(self).spec_n(),
            final(self).spec_len() == old(self).spec_len(),
            final(self).cube(c as int) == cube_add(old(self).spec_n(), old(self).cube(a as int), b@),
            forall|i: int|
                0 <= i < old(self).slots() && i != c && i != old(self).spec_len() ==> #[trigger] final(self).cube(i) == old(self).cube(i),
    {
        let mut a = a;
        if a == c {
            self.clone_cube(a, self.len);
            a = self.len;
        }
        self.combine_with(a, b, c, false);
    }

    /// `c = a - b` where `b` is given by its packed words; undoes
    /// [`CubeArena::add_slice`].
    pub fn sub_slice(&mut self, a: usize, b: &[u128], c: usize)
        requires
            old(self).wf(),
            a < old(self).slots(),
            c < old(self).slots(),
            composable(old(self).spec_n(), b@),
        ensures
            final(self).wf(),
            final(self).spec_n() == old(self).spec_n(),
            final(self).spec_len() == old(self).spec_len(),
            final(self).cube(c as int) == cube_sub(old(self).spec_n(), old(self).cube(a as int), b@),
            forall|i: int|
                0 <= i < old(self).slots() && i != c && i != old(self).spec_len() ==> #[trigger] final(self).cube(i) == old(self).cube(i),
    {
        let mut a = a;
        if a == c {
            self.clone_cube(a, self.len);
            a = self.len;
        }
        self.combine_with(a, b, c, true);
    }
}


impl CubeArena {
    /// `c = -a` (group inverse: the solved cube minus `a`).  Word `k` of the
    /// result depends only on word `k` of `a`, so `c` may be `a`.
    pub fn neg(&mut self, a: usize, c: usize)
        requires
            old(self).wf(),
            a < old(self).slots(),
            c < old(self).slots(),
            composable(old(self).spec_n(), old(self).cube(a as int)),
        ensures
            final(self).wf(),
            final(self).spec_n() == old(self).spec_n(),
            final(self).spec_len() == old(self).spec_len(),
            final(self).cube(c as int) == cube_neg(old(self).spec_n(), old(self).cube(a as int)),
            forall|i: int|
                0 <= i < old(self).slots() && i != c ==> #[trigger] final(self).cube(i) == old(self).cube(i),
    {
        proof {
            self.lemma_wf();
        }
        let ghost old_self = *self;
        let ghost n = self.n as nat;
        let ghost aa = self.cube(a as int);
        let ghost ee = identity_cube(n);
        let stride = self.stride as usize;
        let w0 = if self.n % 2 == 1 {
            ID_CORNER | ID_ODD_HIGH
        } else {
            ID_CORNER
        };
        let mut k: usize = 0;
        while k < stride
            invariant
                self.wf(),
                self.spec_n() == n,
                n == old_self.spec_n(),
                self.spec_len() == old_self.spec_len(),
                self.spec_stride() == stride,
                a < self.slots(),
                c < self.slots(),
                composable(n, aa),
                aa == old_self.cube(a as int),
                ee == identity_cube(n),
                w0 == id_word0(n),
                aa.len() == stride,
                ee.len() == stride,
                k <= stride,
                self.cube(c as int).len() == stride,
                self.cube(a as int).len() == stride,
                forall|m: int| k <= m < stride ==> #[trigger] self.cube(a as int)[m] == aa[m],
                forall|m: int| 0 <= m < k ==> #[trigger] self.cube(c as int)[m] == sub_word(n, ee, aa, m),
                forall|i: int|
                    0 <= i < self.slots() && i != c ==> #[trigger] self.cube(i) == old_self.cube(i),
            decreases stride - k,
        {
            let x = self.read_word(a, k);
            let w = if k == 0 {
                self.sub_first(w0, x)
            } else {
                assert(word_positions(aa[k as int], 24));
                sub_perm::<Piece24>(ID_24, x)
            };
            self.write_word(c, k, w);
            k = k + 1;
        }
        assert(self.cube(c as int) =~= cube_sub(n, ee, aa));
    }

    /// `c = a * k`: `a` added to itself `k` times, by repeated doubling; the
    /// solved cube for `k == 0` and the inverse of `a` repeated for negative
    /// `k`.  Uses both scratch slots.
    pub fn mul(&mut self, a: usize, k: isize, c: usize)
        requires
            old(self).wf(),
            a < old(self).slots(),
            c < old(self).spec_len(),
            k != isize::MIN,
            valid_cube(old(self).spec_n(), old(self).cube(a as int)),
        ensures
            final(self).wf(),
            final(self).spec_n() == old(self).spec_n(),
            final(self).spec_len() == old(self).spec_len(),
            final(self).cube(c as int) == cube_mul(old(self).spec_n(), old(self).cube(a as int), k as int),
            forall|i: int|
                0 <= i < old(self).spec_len() && i != c ==> #[trigger] final(self).cube(i) == old(self).cube(i),
    {
        let ghost n = self.n as nat;
        let ghost aa = self.cube(a as int);
        let ghost old_self = *self;
        proof {
            self.lemma_wf();
        }
        if k == 0 {
            self.identity(c);
            return;
        }
        self.clone_cube(a, c);
        if k == 1 {
            proof {
                law_pow_one(n, aa);
            }
            return;
        }
        let ghost x: Seq<u128> = if k < 0 { cube_neg(n, aa) } else { aa };
        proof {
            law_identity_valid(n);
            law_inverse(n, aa, aa);
            lemma_valid_composable(n, aa);
        }
        if k < 0 {
            self.neg(c, c);
        }
        assert(self.cube(c as int) == x);
        assert(valid_cube(n, x));
        let acc = self.aux_mul();
        self.identity(acc);
        let mut m: usize = if k < 0 {
            (-k) as usize
        } else {
            k as usize
        };
        let ghost total: nat = m as nat;
        let ghost e_acc: nat = 0;
        let ghost e_c: nat = 1;
        proof {
            law_pow_one(n, x);
        }
        while m != 0
            invariant
                self.wf(),
                self.spec_n() == n,
                self.spec_len() == old_self.spec_len(),
                c < self.spec_len(),
                acc == self.spec_len() + 1,
                n >= 2,
                valid_cube(n, x),
                self.cube(acc as int) == cube_pow(n, x, e_acc),
                self.cube(c as int) == cube_pow(n, x, e_c),
                e_acc + e_c * m == total,
                forall|i: int|
                    0 <= i < self.spec_len() && i != c ==> #[trigger] self.cube(i) == old_self.cube(i),
            decreases m,
        {
            proof {
                law_pow_valid(n, x, e_c);
                lemma_valid_composable(n, cube_pow(n, x, e_c));
            }
            let ghost m0 = m;
            let ghost ea0 = e_acc;
            if m % 2 == 1 {
                self.add(acc, c, acc);
                proof {
                    law_pow_add(n, x, e_acc, e_c);
                    e_acc = e_acc + e_c;
                }
            }
            m = m / 2;
            assert(e_acc + e_c * (2 * m) == total) by (nonlinear_arith)
                requires
                    ea0 + e_c * m0 == total,
                    m0 == 2 * m + m0 % 2,
                    m0 % 2 == 1 ==> e_acc == ea0 + e_c,
                    m0 % 2 == 0 ==> e_acc == ea0,
            ;
            if m != 0 {
                self.add(c, c, c);
                proof {
                    law_pow_add(n, x, e_c, e_c);
                    assert((e_c + e_c) * m == e_c * (2 * m)) by (nonlinear_arith);
                    e_c = e_c + e_c;
                }
            }
        }
        self.clone_cube(acc, c);
    }
}


impl CubeArena {
    /// `c = -b + a + b` (the conjugate of `a` by `b`).  Uses the scratch
    /// slot `len`.
    pub fn conjugate(&mut self, a: usize, b: usize, c: usize)
        requires
            old(self).wf(),
            a < old(self).spec_len(),
            b < old(self).spec_len(),
            c < old(self).slots(),
            composable(old(self).spec_n(), old(self).cube(a as int)),
            composable(old(self).spec_n(), old(self).cube(b as int)),
        ensures
            final(self).wf(),
            final(self).spec_n() == old(self).spec_n(),
            final(self).spec_len() == old(self).spec_len(),
            final(self).cube(c as int) == cube_add(
                old(self).spec_n(),
                cube_add(
                    old(self).spec_n(),
                    cube_neg(old(self).spec_n(), old(self).cube(b as int)),
                    old(self).cube(a as int),
                ),
                old(self).cube(b as int),
            ),
            forall|i: int|
                0 <= i < old(self).slots() && i != c && i != old(self).spec_len() ==> #[trigger] final(self).cube(i) == old(self).cube(i),
    {
        let t = self.len;
        self.neg(b, t);
        self.combine(t, a, t, false);
        self.combine(t, b, c, false);
    }

    /// `c = a + b - a - b` (the commutator of `a` and `b`: `a`, then `b`,
    /// then the inverses of `a` and of `b`).  Uses both scratch slots.
    pub fn conmutator(&mut self, a: usize, b: usize, c: usize)
        requires
            old(self).wf(),
            a < old(self).spec_len(),
            b < old(self).spec_len(),
            c < old(self).spec_len(),
            valid_cube(old(self).spec_n(), old(self).cube(a as int)),
            valid_cube(old(self).spec_n(), old(self).cube(b as int)),
        ensures
            final(self).wf(),
            final(self).spec_n() == old(self).spec_n(),
            final(self).spec_len() == old(self).spec_len(),
            final(self).cube(c as int) == cube_add(
                old(self).spec_n(),
                cube_add(
                    old(self).spec_n(),
                    cube_add(old(self).spec_n(), old(self).cube(a as int), old(self).cube(b as int)),
                    cube_neg(old(self).spec_n(), old(self).cube(a as int)),
                ),
                cube_neg(old(self).spec_n(), old(self).cube(b as int)),
            ),
            forall|i: int|
                0 <= i < old(self).spec_len() && i != c ==> #[trigger] final(self).cube(i) == old(self).cube(i),
    {
        let ghost n = self.n as nat;
        let ghost aa = self.cube(a as int);
        let ghost bb = self.cube(b as int);
        proof {
            self.lemma_wf();
            law_inverse(n, aa, aa);
            law_inverse(n, aa, bb);
            lemma_valid_composable(n, aa);
            lemma_valid_composable(n, bb);
            lemma_valid_composable(n, cube_neg(n, aa));
            lemma_valid_composable(n, cube_neg(n, bb));
        }
        let t = self.len;
        let u = self.len + 1;
        self.combine(a, b, t, false);
        self.neg(a, u);
        self.combine(t, u, t, false);
        self.neg(b, u);
        self.combine(t, u, c, false);
    }
}


/// Replacing the words of slot `index` of a storage of `slots` slots of
/// `stride` words changes that slot only.
pub(crate) proof fn lemma_splice(old: Seq<u128>, index: int, stride: int, slots: int)
    requires
        0 <= index < slots,
        stride >= 0,
        old.len() == slots * stride,
    ensures
        forall|head: Seq<u128>, mid: Seq<u128>, tail: Seq<u128>|
            #![trigger head + (mid + tail)]
            head == old.subrange(0, index * stride) && tail == old.subrange(
                index * stride + stride,
                old.len() as int,
            ) && mid.len() == stride ==> forall|i: int|
                0 <= i < slots ==> #[trigger] (head + (mid + tail)).subrange(i * stride, (i + 1) * stride)
                    == (if i == index {
                    mid
                } else {
                    old.subrange(i * stride, (i + 1) * stride)
                }),
{
    assert forall|head: Seq<u128>, mid: Seq<u128>, tail: Seq<u128>|
        #![trigger head + (mid + tail)]
        head == old.subrange(0, index * stride) && tail == old.subrange(
            index * stride + stride,
            old.len() as int,
        ) && mid.len() == stride implies forall|i: int|
        0 <= i < slots ==> #[trigger] (head + (mid + tail)).subrange(i * stride, (i + 1) * stride)
            == (if i == index {
            mid
        } else {
            old.subrange(i * stride, (i + 1) * stride)
        }) by {
        lemma_slot_range(index, slots, stride);
        assert forall|i: int| 0 <= i < slots implies #[trigger] (head + (mid + tail)).subrange(
            i * stride,
            (i + 1) * stride,
        ) == (if i == index {
            mid
        } else {
            old.subrange(i * stride, (i + 1) * stride)
        }) by {
            lemma_slot_range(i, slots, stride);
            let whole = head + (mid + tail);
            assert(whole.len() == old.len());
            if i < index {
                assert((i + 1) * stride <= index * stride) by (nonlinear_arith)
                    requires
                        i + 1 <= index,
                        stride >= 0,
                ;
                assert(whole.subrange(i * stride, (i + 1) * stride) =~= old.subrange(
                    i * stride,
                    (i + 1) * stride,
                ));
            } else if i > index {
                assert((index + 1) * stride <= i * stride) by (nonlinear_arith)
                    requires
                        index + 1 <= i,
                        stride >= 0,
                ;
                assert(whole.subrange(i * stride, (i + 1) * stride) =~= old.subrange(
                    i * stride,
                    (i + 1) * stride,
                ));
            } else {
                assert(whole.subrange(i * stride, (i + 1) * stride) =~= mid);
            }
        }
    }
}

impl CubeArena {
    /// The packed words of the cube at `index`, for writing in place.
    pub fn get_cube_mut(&mut self, index: usize) -> (r: &mut [u128])
        requires
            old(self).wf(),
            index < old(self).spec_len(),
        ensures
            r@ == old(self).cube(index as int),
            final(self).spec_n() == old(self).spec_n(),
            final(self).spec_len() == old(self).spec_len(),
            final(r)@.len() == old(self).spec_stride() ==> final(self).wf(),
            final(r)@.len() == old(self).spec_stride() ==> final(self).cube(index as int) == final(r)@,
            final(r)@.len() == old(self).spec_stride() ==> forall|i: int|
                0 <= i < old(self).slots() && i != index ==> #[trigger] final(self).cube(i) == old(self).cube(i),
    {
        let ghost stride = self.stride as int;
        proof {
            lemma_slot_range(index as int, self.slots() as int, stride);
        }
        let total = self.data.len();
        assert(index * stride + stride <= total);
        let start = index * (self.stride as usize);
        let width = self.stride as usize;
        let ghost d = self.data@;
        proof {
            lemma_splice(d, index as int, stride, self.slots() as int);
        }
        let s = self.data.as_mut_slice();
        let (head, rest) = s.split_at_mut(start);
        let (mid, tail) = rest.split_at_mut(width);
        proof {
            assert(has_resolved(head));
            assert(has_resolved(tail));
            assert(head@ =~= d.subrange(0, start as int));
            assert(tail@ =~= d.subrange(start + width, total as int));
        }
        mid
    }
}


/// The (perm, ori) pairs of orbit group `g` of a cube: the corners, then
/// for odd dimensions the single edges and the fixed centers, then the
/// 24-piece orbits.
pub open spec fn group_pairs(n: nat, c: Seq<u128>, g: int) -> Seq<(u8, u8)> {
    if g == 0 {
        unpack_seq::<Corner>(corner_of(c[0]))
    } else if is_odd(n) && g == 1 {
        unpack_seq::<Edge>(edge_of(c[0]))
    } else if is_odd(n) && g == 2 {
        unpack_seq::<Center>(center_of(c[0]))
    } else {
        unpack_seq::<Piece24>(c[g - 2 * (n % 2) as int])
    }
}

/// The number of pieces of orbit group `g`.
pub open spec fn group_len(n: nat, g: int) -> nat {
    if g == 0 {
        8
    } else if is_odd(n) && g == 1 {
        12
    } else if is_odd(n) && g == 2 {
        6
    } else {
        24
    }
}

/// The cube packed from its groups of (perm, ori) pairs.
pub open spec fn packed_groups(n: nat, groups: Seq<Seq<(u8, u8)>>, stride: nat) -> Seq<u128> {
    let off = 2 * (n % 2) as int;
    Seq::new(
        stride,
        |k: int|
            if k == 0 {
                if is_odd(n) {
                    spec_pack::<Corner>(groups[0]) | (spec_pack::<Edge>(groups[1]) << 40) | (
                    spec_pack::<Center>(groups[2]) << 100)
                } else {
                    spec_pack::<Corner>(groups[0])
                }
            } else {
                spec_pack::<Piece24>(groups[k + off])
            },
    )
}

impl CubeArena {
    /// The cube at `index` as groups of (perm, ori) pairs, one group per orbit.
    pub fn cube_to_vec(&self, index: usize) -> (r: Vec<Vec<(u8, u8)>>)
        requires
            self.wf(),
            index < self.slots(),
        ensures
            r@.len() == self.spec_stride() + 2 * (self.spec_n() % 2),
            forall|g: int|
                0 <= g < r@.len() ==> (#[trigger] r@[g])@ == group_pairs(
                    self.spec_n(),
                    self.cube(index as int),
                    g,
                ),
    {
        proof {
            self.lemma_wf();
        }
        let ghost n = self.spec_n();
        let ghost c = self.cube(index as int);
        let len = self.stride as usize;
        let w0 = self.read_word(index, 0);
        let mut out: Vec<Vec<(u8, u8)>> = Vec::new();
        out.push(unpack_u128::<Corner>(get_corner(w0) as u128));
        let off: usize = if self.n % 2 == 1 {
            out.push(unpack_u128::<Edge>(get_edge(w0) as u128));
            out.push(unpack_u128::<Center>(get_center(w0)));
            2
        } else {
            0
        };
        let mut k: usize = 1;
        while k < len
            invariant
                self.wf(),
                index < self.slots(),
                len == self.spec_stride(),
                c == self.cube(index as int),
                c.len() == len,
                n == self.spec_n(),
                off == 2 * (n % 2),
                1 <= k <= len,
                out@.len() == k + off,
                forall|g: int| 0 <= g < out@.len() ==> (#[trigger] out@[g])@ == group_pairs(n, c, g),
            decreases len - k,
        {
            let w = self.read_word(index, k);
            let ghost before = out@;
            out.push(unpack_u128::<Piece24>(w));
            proof {
                assert forall|g: int| 0 <= g < out@.len() implies (#[trigger] out@[g])@ == group_pairs(n, c, g) by {
                    if g < before.len() {
                        assert(out@[g] == before[g]);
                    }
                }
            }
            k = k + 1;
        }
        out
    }

    /// Packs groups of (perm, ori) pairs, one group per orbit, into the cube
    /// at `index`; the inverse of [`CubeArena::cube_to_vec`].
    pub fn cube_from_vec(&mut self, index: usize, cube: &[Vec<(u8, u8)>])
        requires
            old(self).wf(),
            index < old(self).spec_len(),
            cube@.len() == old(self).spec_stride() + 2 * (old(self).spec_n() % 2),
            forall|g: int| 0 <= g < cube@.len() ==> (#[trigger] cube@[g])@.len() == group_len(old(self).spec_n(), g),
        ensures
            final(self).wf(),
            final(self).spec_n() == old(self).spec_n(),
            final(self).spec_len() == old(self).spec_len(),
            final(self).cube(index as int) == packed_groups(
                old(self).spec_n(),
                Seq::new(cube@.len(), |g: int| cube@[g]@),
                old(self).spec_stride(),
            ),
            forall|i: int|
                0 <= i < old(self).slots() && i != index ==> #[trigger] final(self).cube(i) == old(self).cube(i),
    {
        proof {
            self.lemma_wf();
        }
        let ghost n = self.spec_n();
        let ghost groups = Seq::new(cube@.len(), |g: int| cube@[g]@);
        let ghost old_self = *self;
        let len = self.stride as usize;
        let mut block = pack_u128::<Corner>(cube[0].as_slice());
        let off: usize = if self.n % 2 == 1 {
            block = block | (pack_u128::<Edge>(cube[1].as_slice()) << 40u128);
            block = block | (pack_u128::<Center>(cube[2].as_slice()) << 100u128);
            2
        } else {
            0
        };
        self.write_word(index, 0, block);
        let mut k: usize = 1;
        while k < len
            invariant
                self.wf(),
                self.spec_n() == n,
                n == old_self.spec_n(),
                self.spec_len() == old_self.spec_len(),
                index < self.spec_len(),
                len == self.spec_stride(),
                off == 2 * (n % 2),
                cube@.len() == len + off,
                groups == Seq::new(cube@.len(), |g: int| cube@[g]@),
                forall|g: int| 0 <= g < cube@.len() ==> (#[trigger] cube@[g])@.len() == group_len(n, g),
                1 <= k <= len,
                self.cube(index as int).len() == len,
                forall|m: int| 0 <= m < k ==> #[trigger] self.cube(index as int)[m] == packed_groups(n, groups, len as nat)[m],
                forall|i: int|
                    0 <= i < self.slots() && i != index ==> #[trigger] self.cube(i) == old_self.cube(i),
            decreases len - k,
        {
            assert(cube@[k + off]@.len() == 24);
            let w = pack_u128::<Piece24>(cube[k + off].as_slice());
            self.write_word(index, k, w);
            k = k + 1;
        }
        assert(self.cube(index as int) =~= packed_groups(n, groups, len as nat));
    }
}

} // verus!
