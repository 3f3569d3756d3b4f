//! The cube as a list of packed permutation words, one per orbit group and
//! tagged with the group's kind, with the corner and single-edge
//! orientations in two tagged words.
use vstd::prelude::*;

use crate::cycles::{
    is_perm, iter, leader, lemma_cycle_distinct, lemma_iter_add, lemma_iter_range, lemma_leader_cycle,
    lemma_mark_leader, lemma_period, lemma_skip_follower, period, reached_below,
};
use crate::error::CubeError;
use crate::numbers::{law_lcm, lcm_step, spec_lcm};
use crate::walks::{lists_cycles, next_position};

verus! {

/// Number of pieces per kind.
pub const NUM_PER_KIND: [usize; 7] = [8, 12, 6, 24, 24, 24, 24];

/// Number of distinguishable pieces per kind.
pub const PERM_MOD: [usize; 7] = [8, 12, 6, 6, 24, 6, 6];

/// Number of orientations per kind.
pub const ORI_MOD: [usize; 7] = [3, 2, 1, 1, 1, 1, 1];

/// Number of pieces that look alike, per distinguishable piece of a kind.
pub const NUM_PER_UNIQUE: [usize; 7] = [1, 1, 1, 4, 1, 4, 4];

/// Names of the kinds.
pub const KIND: [&'static str; 7] = [
    "Corners",
    "Odd Edges",
    "Odd Centers",
    "Corner Centers",
    "Par Edges",
    "Par Centers",
    "Edge Centers",
];

/// The solved word of each kind, pieces that look alike sharing a value.
pub const IDENTITY_ORD: [u128; 7] = [
    247132686368,
    42535295865117307933329727397822564384,
    85070591730234615865843651858114119712,
    127820279166683303482936997031151927296,
    171126001705004986259790852755342592032,
    212890870896917919348780648889093980160,
    255426166762035227281702474818065006592,
];

/// The solved word of each kind, every piece told apart.
pub const IDENTITY_PERM: [u128; 7] = [
    247132686368,
    42535295865117307933329727397822564384,
    85070591730234615865843651858114119712,
    128590705839887678326869026826371565600,
    171126001705004986259790852755342592032,
    213661297570122294192712678684313618464,
    256196593435239602125634504613284644896,
];

/// Field `i` of a permutation word.
pub open spec fn pfield(w: u128, i: int) -> u8 {
    ((w >> ((5 * i) as u128)) & 31) as u8
}

/// `w` with field `i` cleared and `v` or-ed in at its place.
pub open spec fn pput(w: u128, i: int, v: u8) -> u128 {
    (w & !(31u128 << ((5 * i) as u128))) | ((v as u128) << ((5 * i) as u128))
}

/// The kind tag of a permutation word.
pub open spec fn pkind(w: u128) -> usize {
    (w >> 125u128) as usize
}

/// `w` with its kind tag set to `kind`.
pub open spec fn pwith_kind(w: u128, kind: usize) -> u128 {
    (w & !(7u128 << 125u128)) | ((kind as u128) << 125u128)
}

/// Field `i` of an orientation word.
pub open spec fn ofield(w: u32, i: int) -> u8 {
    ((w >> ((2 * i) as u32)) & 3) as u8
}

/// `w` with field `i` cleared and `v` or-ed in at its place.
pub open spec fn oput(w: u32, i: int, v: u8) -> u32 {
    (w & !(3u32 << ((2 * i) as u32))) | ((v as u32) << ((2 * i) as u32))
}

/// The kind tag of an orientation word.
pub open spec fn okind(w: u32) -> usize {
    (w >> 29u32) as usize
}

/// `w` with its kind tag set to `kind`.
pub open spec fn owith_kind(w: u32, kind: usize) -> u32 {
    (w & !(7u32 << 29u32)) | ((kind as u32) << 29u32)
}

/// The fields of `w` below `n`, then its kind tag.
pub open spec fn plisted(w: u128, n: nat) -> Seq<u8> {
    Seq::new(n, |i: int| pfield(w, i)).push(pkind(w) as u8)
}

/// The fields of `w` below `n`, then its kind tag.
pub open spec fn olisted(w: u32, n: nat) -> Seq<u8> {
    Seq::new(n, |i: int| ofield(w, i)).push(okind(w) as u8)
}

/// `w` with fields `0 .. n` set to the first `n` entries of `v`, one after
/// the other.
pub open spec fn pfilled(w: u128, v: Seq<u8>, n: nat) -> u128
    decreases n,
{
    if n == 0 {
        w
    } else {
        pput(pfilled(w, v, (n - 1) as nat), n - 1, v[n - 1])
    }
}

/// `w` with fields `0 .. n` set to the first `n` entries of `v`, one after
/// the other.
pub open spec fn ofilled(w: u32, v: Seq<u8>, n: nat) -> u32
    decreases n,
{
    if n == 0 {
        w
    } else {
        oput(ofilled(w, v, (n - 1) as nat), n - 1, v[n - 1])
    }
}

/// Read and write the fields and the kind tag of a packed word.
pub trait Bit: Sized {
    /// The number of fields that can be addressed.
    spec fn spec_width() -> nat;

    /// The value of field `i`.
    spec fn spec_get(&self, i: int) -> u8;

    /// The word with field `i` cleared and `v` or-ed in at its place.
    spec fn spec_set(&self, i: int, v: u8) -> Self;

    /// The kind tag.
    spec fn spec_kind(&self) -> usize;

    /// The word with its kind tag set to `kind`.
    spec fn spec_with_kind(&self, kind: usize) -> Self;

    /// The word of kind 0 with every field 0.
    spec fn spec_zero() -> Self;

    /// Sets field `i` to `v`.
    fn set(&mut self, i: usize, v: u8)
        requires
            i < Self::spec_width(),
        ensures
            *final(self) == old(self).spec_set(i as int, v),
    ;

    /// Field `i`.
    fn get(&self, i: usize) -> (r: u8)
        requires
            i < Self::spec_width(),
        ensures
            r == self.spec_get(i as int),
    ;

    /// The kind tag.
    fn get_kind(&self) -> (r: usize)
        ensures
            r == self.spec_kind(),
    ;

    /// Sets the kind tag to `kind`.
    fn set_kind(&mut self, kind: usize)
        ensures
            *final(self) == old(self).spec_with_kind(kind),
    ;

    /// The fields of the pieces of the word's kind, then the kind.
    fn to_vec(&self) -> (r: Vec<u8>)
        requires
            self.spec_kind() < 7,
            NUM_PER_KIND[self.spec_kind() as int] <= Self::spec_width(),
    ;

    /// The word of the kind given by the last entry of `vect`, its fields
    /// set from the first entries.
    fn from_vec(vect: &[u8]) -> (r: Self)
        requires
            vect@.len() >= 1,
            Self::spec_zero().spec_with_kind(vect@.last() as usize).spec_kind() < 7,
            NUM_PER_KIND[Self::spec_zero().spec_with_kind(vect@.last() as usize).spec_kind() as int]
                <= Self::spec_width(),
            NUM_PER_KIND[Self::spec_zero().spec_with_kind(vect@.last() as usize).spec_kind() as int]
                <= vect@.len(),
    ;
}

impl Bit for u128 {
    open spec fn spec_width() -> nat {
        26
    }

    open spec fn spec_get(&self, i: int) -> u8 {
        pfield(*self, i)
    }

    open spec fn spec_set(&self, i: int, v: u8) -> u128 {
        pput(*self, i, v)
    }

    open spec fn spec_kind(&self) -> usize {
        pkind(*self)
    }

    open spec fn spec_with_kind(&self, kind: usize) -> u128 {
        pwith_kind(*self, kind)
    }

    open spec fn spec_zero() -> u128 {
        0
    }

    fn set(&mut self, i: usize, v: u8) {
        let shift = (i * 5) as u128;
        *self = *self & !(31u128 << shift);
        *self = *self | ((v as u128) << shift);
    }

    fn get(&self, i: usize) -> (r: u8) {
        ((*self >> ((i * 5) as u128)) & 31) as u8
    }

    fn get_kind(&self) -> (r: usize) {
        (*self >> 125u128) as usize
    }

    fn set_kind(&mut self, kind: usize) {
        *self = (*self & !(7u128 << 125u128)) | ((kind as u128) << 125u128);
    }

    fn to_vec(&self) -> (r: Vec<u8>)
        ensures
            r@ == plisted(*self, NUM_PER_KIND[pkind(*self) as int] as nat),
    {
        let kind = self.get_kind();
        let count = NUM_PER_KIND[kind];
        let mut vect: Vec<u8> = Vec::new();
        let mut i: usize = 0;
        while i < count
            invariant
                i <= count,
                count <= 26,
                kind == self.spec_kind(),
                vect@ == Seq::new(i as nat, |j: int| self.spec_get(j)),
            decreases count - i,
        {
            vect.push(self.get(i));
            i = i + 1;
            assert(vect@ =~= Seq::new(i as nat, |j: int| self.spec_get(j)));
        }
        vect.push(kind as u8);
        vect
    }

    fn from_vec(vect: &[u8]) -> (r: u128)
        ensures
            r == pfilled(
                pwith_kind(0, vect@.last() as usize),
                vect@,
                NUM_PER_KIND[pkind(pwith_kind(0, vect@.last() as usize)) as int] as nat,
            ),
    {
        let kind = vect[vect.len() - 1] as usize;
        let mut a: u128 = 0;
        a.set_kind(kind);
        let count = NUM_PER_KIND[a.get_kind()];
        let ghost start = a;
        let mut i: usize = 0;
        while i < count
            invariant
                i <= count,
                count <= 26,
                count <= vect@.len(),
                a == pfilled(start, vect@, i as nat),
            decreases count - i,
        {
            a.set(i, vect[i]);
            i = i + 1;
        }
        a
    }
}

impl Bit for u32 {
    open spec fn spec_width() -> nat {
        16
    }

    open spec fn spec_get(&self, i: int) -> u8 {
        ofield(*self, i)
    }

    open spec fn spec_set(&self, i: int, v: u8) -> u32 {
        oput(*self, i, v)
    }

    open spec fn spec_kind(&self) -> usize {
        okind(*self)
    }

    open spec fn spec_with_kind(&self, kind: usize) -> u32 {
        owith_kind(*self, kind)
    }

    open spec fn spec_zero() -> u32 {
        0
    }

    fn set(&mut self, i: usize, v: u8) {
        let shift = (i * 2) as u32;
        *self = *self & !(3u32 << shift);
        *self = *self | ((v as u32) << shift);
    }

    fn get(&self, i: usize) -> (r: u8) {
        ((*self >> ((i * 2) as u32)) & 3) as u8
    }

    fn get_kind(&self) -> (r: usize) {
        (*self >> 29u32) as usize
    }

    fn set_kind(&mut self, kind: usize) {
        *self = (*self & !(7u32 << 29u32)) | ((kind as u32) << 29u32);
    }

    fn to_vec(&self) -> (r: Vec<u8>)
        ensures
            r@ == olisted(*self, NUM_PER_KIND[okind(*self) as int] as nat),
    {
        let kind = self.get_kind();
        let count = NUM_PER_KIND[kind];
        let mut vect: Vec<u8> = Vec::new();
        let mut i: usize = 0;
        while i < count
            invariant
                i <= count,
                count <= 16,
                kind == self.spec_kind(),
                vect@ == Seq::new(i as nat, |j: int| self.spec_get(j)),
            decreases count - i,
        {
            vect.push(self.get(i));
            i = i + 1;
            assert(vect@ =~= Seq::new(i as nat, |j: int| self.spec_get(j)));
        }
        vect.push(kind as u8);
        vect
    }

    fn from_vec(vect: &[u8]) -> (r: u32)
        ensures
            r == ofilled(
                owith_kind(0, vect@.last() as usize),
                vect@,
                NUM_PER_KIND[okind(owith_kind(0, vect@.last() as usize)) as int] as nat,
            ),
    {
        let kind = vect[vect.len() - 1] as usize;
        let mut a: u32 = 0;
        a.set_kind(kind);
        let count = NUM_PER_KIND[a.get_kind()];
        let ghost start = a;
        let mut i: usize = 0;
        while i < count
            invariant
                i <= count,
                count <= 16,
                count <= vect@.len(),
                a == ofilled(start, vect@, i as nat),
            decreases count - i,
        {
            a.set(i, vect[i]);
            i = i + 1;
        }
        a
    }
}

/// The kind that a word read from `v` gets: the tag that its last entry
/// leaves in a permutation word.
pub open spec fn plisted_kind(v: Seq<u8>) -> usize {
    pkind(pwith_kind(0, v.last() as usize))
}

/// The permutation word read from `v`: the kind from its last entry, the
/// fields of the pieces of that kind from its first entries.
pub open spec fn pword_of(v: Seq<u8>) -> u128 {
    pfilled(pwith_kind(0, v.last() as usize), v, NUM_PER_KIND[plisted_kind(v) as int] as nat)
}

/// `v` can be read as a permutation word: it names a kind and holds a
/// field for each of its pieces.
pub open spec fn preadable(v: Seq<u8>) -> bool {
    v.len() >= 1 && plisted_kind(v) < 7 && NUM_PER_KIND[plisted_kind(v) as int] <= v.len()
}

/// The kind that an orientation word read from `v` gets.
pub open spec fn olisted_kind(v: Seq<u8>) -> usize {
    okind(owith_kind(0, v.last() as usize))
}

/// The orientation word read from `v`.
pub open spec fn oword_of(v: Seq<u8>) -> u32 {
    ofilled(owith_kind(0, v.last() as usize), v, NUM_PER_KIND[olisted_kind(v) as int] as nat)
}

/// `v` can be read as an orientation word: it names a kind whose pieces fit
/// in the word, and holds a field for each of them.
pub open spec fn oreadable(v: Seq<u8>) -> bool {
    v.len() >= 1 && olisted_kind(v) < 7 && NUM_PER_KIND[olisted_kind(v) as int] <= 16
        && NUM_PER_KIND[olisted_kind(v) as int] <= v.len()
}

/// The number of orbit groups of each kind of a cube of dimension `d`.
pub open spec fn group_counts(d: nat) -> Seq<nat> {
    let m = d % 2;
    let t = ((d - 2 - m) / 2) as nat;
    seq![1, m, m, t, t, t * m, (((d - 2) * (d - 2) - m) / 4 - t * (m + 1)) as nat]
}

/// The solved words of the groups of the kinds below `k`, in kind order.
pub open spec fn solved_words(d: nat, k: nat) -> Seq<u128>
    decreases k,
{
    if k == 0 {
        Seq::empty()
    } else {
        solved_words(d, (k - 1) as nat) + Seq::new(group_counts(d)[k - 1], |j: int| IDENTITY_PERM[k - 1])
    }
}

/// The orientation words of the solved cube.
pub open spec fn solved_ori() -> [u32; 2] {
    [0u32, 1u32 << 29u32]
}

/// The number of pieces of the kind tagged on `w`.
pub open spec fn pieces(w: u128) -> nat {
    NUM_PER_KIND[pkind(w) as int] as nat
}

/// `a` with fields `0 .. n` composed with `b`, one after the other: field
/// `i` becomes the field of `a` at the position named by field `i` of `b`.
pub open spec fn composed(a: u128, b: u128, n: nat) -> u128
    decreases n,
{
    if n == 0 {
        a
    } else {
        pput(composed(a, b, (n - 1) as nat), n - 1, pfield(a, pfield(b, n - 1) as int))
    }
}

/// The orientations `o` composed with the permutation `b` and the
/// orientations `bo` over fields `0 .. n`, modulo `m`.
pub open spec fn ori_composed(o: u32, b: u128, bo: u32, n: nat, m: nat) -> u32
    decreases n,
{
    if n == 0 {
        o
    } else {
        oput(
            ori_composed(o, b, bo, (n - 1) as nat, m),
            n - 1,
            ((ofield(o, pfield(b, n - 1) as int) + ofield(bo, n - 1)) % (m as int)) as u8,
        )
    }
}

/// `a` with fields `0 .. n` moved by `b`, one after the other: field `i` of
/// `a` goes to the position named by field `i` of `b`.
pub open spec fn scattered(a: u128, b: u128, n: nat) -> u128
    decreases n,
{
    if n == 0 {
        a
    } else {
        pput(scattered(a, b, (n - 1) as nat), pfield(b, n - 1) as int, pfield(a, n - 1))
    }
}

/// The orientations `o` moved by `b` with those of `bo` taken away, over
/// fields `0 .. n`, modulo `m`.
pub open spec fn ori_scattered(o: u32, b: u128, bo: u32, n: nat, m: nat) -> u32
    decreases n,
{
    if n == 0 {
        o
    } else {
        oput(
            ori_scattered(o, b, bo, (n - 1) as nat, m),
            pfield(b, n - 1) as int,
            ((ofield(o, n - 1) + m - ofield(bo, n - 1)) % (m as int)) as u8,
        )
    }
}

/// Whether group `j` of the permutation words `c` carries orientations:
/// the first group, and the second when it is of kind 1.
pub open spec fn oriented(c: Seq<u128>, j: int) -> bool {
    j == 0 || (j == 1 && c.len() > 1 && pkind(c[1]) == 1)
}

/// The permutation words `ap` can be composed with `bp`, group by group:
/// the kinds of `ap` are known, its oriented groups have orientation
/// fields for their pieces, and every position that `bp` names can be read.
pub open spec fn composable(ap: Seq<u128>, bp: Seq<u128>) -> bool {
    &&& ap.len() >= 1
    &&& bp.len() >= ap.len()
    &&& pieces(ap[0]) <= 16
    &&& forall|j: int| 0 <= j < ap.len() ==> pkind(#[trigger] ap[j]) < 7
    &&& forall|j: int, i: int|
        0 <= j < ap.len() && 0 <= i < pieces(ap[j]) ==> #[trigger] pfield(bp[j], i) < (if oriented(ap, j) {
            16int
        } else {
            26int
        })
}

/// `bp` with the orientations `bo` can be taken away from `ap` with `ao`:
/// as `composable`, and no orientation of `bo` exceeds that of `ao` by more
/// than the modulus.
pub open spec fn subtractable(ap: Seq<u128>, ao: Seq<u32>, bp: Seq<u128>, bo: Seq<u32>) -> bool {
    &&& composable(ap, bp)
    &&& forall|j: int, i: int|
        0 <= j < 2 && oriented(ap, j) && 0 <= i < pieces(ap[j]) ==> #[trigger] ofield(bo[j], i) <= ofield(ao[j], i)
            + ORI_MOD[pkind(ap[j]) as int]
}

/// The permutation words of `a + b`.
pub open spec fn perm_sum(a: Seq<u128>, b: Seq<u128>) -> Seq<u128> {
    Seq::new(a.len(), |j: int| composed(a[j], b[j], pieces(a[j])))
}

/// The permutation words of `a - b`.
pub open spec fn perm_diff(a: Seq<u128>, b: Seq<u128>) -> Seq<u128> {
    Seq::new(a.len(), |j: int| scattered(a[j], b[j], pieces(a[j])))
}

/// Orientation word `j` of `a + b`.
pub open spec fn ori_sum(ap: Seq<u128>, ao: Seq<u32>, bp: Seq<u128>, bo: Seq<u32>, j: int) -> u32 {
    if oriented(ap, j) {
        ori_composed(ao[j], bp[j], bo[j], pieces(ap[j]), ORI_MOD[pkind(ap[j]) as int] as nat)
    } else {
        ao[j]
    }
}

/// Orientation word `j` of `a - b`.
pub open spec fn ori_diff(ap: Seq<u128>, ao: Seq<u32>, bp: Seq<u128>, bo: Seq<u32>, j: int) -> u32 {
    if oriented(ap, j) {
        ori_scattered(ao[j], bp[j], bo[j], pieces(ap[j]), ORI_MOD[pkind(ap[j]) as int] as nat)
    } else {
        ao[j]
    }
}

/// The solved words of the kinds of the words of `perm`.
pub open spec fn identity_words(perm: Seq<u128>) -> Seq<u128> {
    Seq::new(perm.len(), |j: int| IDENTITY_PERM[pkind(perm[j]) as int])
}

/// Groups `a` and `b` hold pieces that look alike at every position of the
/// pieces of the kind of `a`.
pub open spec fn same_group(a: u128, b: u128) -> bool {
    forall|i: int|
        0 <= i < pieces(a) ==> #[trigger] pfield(IDENTITY_ORD[pkind(a) as int], pfield(a, i) as int) == pfield(
            IDENTITY_ORD[pkind(a) as int],
            pfield(b, i) as int,
        )
}

/// An orientation field holds at most 3.
proof fn lemma_ofield_small(w: u32, i: int)
    ensures
        ofield(w, i) <= 3,
{
    let x = w >> ((2 * i) as u32);
    vstd::bits::lemma_u32_low_bits_mask_is_mod(x, 2);
    vstd::bits::lemma_low_bits_mask_values();
    vstd::arithmetic::power2::lemma2_to64();
}

/// `a` composed with `b` over the pieces of its kind.
fn add_perm_mut(a: &mut u128, b: u128)
    requires
        pkind(*old(a)) < 7,
        forall|i: int| 0 <= i < pieces(*old(a)) ==> #[trigger] pfield(b, i) < 26,
    ensures
        *final(a) == composed(*old(a), b, pieces(*old(a))),
{
    let kind = a.get_kind();
    let tmp_perm = *a;
    let count = NUM_PER_KIND[kind];
    let mut i: usize = 0;
    while i < count
        invariant
            i <= count,
            count == pieces(tmp_perm),
            count <= 24,
            forall|k: int| 0 <= k < count ==> #[trigger] pfield(b, k) < 26,
            *a == composed(tmp_perm, b, i as nat),
        decreases count - i,
    {
        let idx = b.get(i) as usize;
        a.set(i, tmp_perm.get(idx));
        i = i + 1;
    }
}

/// `a` and its orientations composed with `b` and its orientations.
fn add_ori_mut(a_perm: &mut u128, b_perm: u128, a_ori: &mut u32, b_ori: u32)
    requires
        pkind(*old(a_perm)) < 7,
        pieces(*old(a_perm)) <= 16,
        forall|i: int| 0 <= i < pieces(*old(a_perm)) ==> #[trigger] pfield(b_perm, i) < 16,
    ensures
        *final(a_perm) == composed(*old(a_perm), b_perm, pieces(*old(a_perm))),
        *final(a_ori) == ori_composed(
            *old(a_ori),
            b_perm,
            b_ori,
            pieces(*old(a_perm)),
            ORI_MOD[pkind(*old(a_perm)) as int] as nat,
        ),
{
    let kind = a_perm.get_kind();
    let tmp_perm = *a_perm;
    let tmp_ori = *a_ori;
    let count = NUM_PER_KIND[kind];
    let m = ORI_MOD[kind] as u8;
    let mut i: usize = 0;
    while i < count
        invariant
            i <= count,
            count == pieces(tmp_perm),
            count <= 16,
            m == ORI_MOD[pkind(tmp_perm) as int],
            m >= 1,
            forall|k: int| 0 <= k < count ==> #[trigger] pfield(b_perm, k) < 16,
            *a_perm == composed(tmp_perm, b_perm, i as nat),
            *a_ori == ori_composed(tmp_ori, b_perm, b_ori, i as nat, m as nat),
        decreases count - i,
    {
        let idx = b_perm.get(i) as usize;
        a_perm.set(i, tmp_perm.get(idx));
        proof {
            lemma_ofield_small(tmp_ori, idx as int);
            lemma_ofield_small(b_ori, i as int);
        }
        a_ori.set(i, (tmp_ori.get(idx) + b_ori.get(i)) % m);
        i = i + 1;
    }
}

/// `a` moved by `b` over the pieces of its kind.
fn sub_perm_mut(a: &mut u128, b: u128)
    requires
        pkind(*old(a)) < 7,
        forall|i: int| 0 <= i < pieces(*old(a)) ==> #[trigger] pfield(b, i) < 26,
    ensures
        *final(a) == scattered(*old(a), b, pieces(*old(a))),
{
    let kind = a.get_kind();
    let tmp_perm = *a;
    let count = NUM_PER_KIND[kind];
    let mut i: usize = 0;
    while i < count
        invariant
            i <= count,
            count == pieces(tmp_perm),
            count <= 24,
            forall|k: int| 0 <= k < count ==> #[trigger] pfield(b, k) < 26,
            *a == scattered(tmp_perm, b, i as nat),
        decreases count - i,
    {
        let idx = b.get(i) as usize;
        a.set(idx, tmp_perm.get(i));
        i = i + 1;
    }
}

/// `a` and its orientations moved by `b`, with the orientations of `b_ori`
/// taken away.
fn sub_ori_mut(a_perm: &mut u128, b_perm: u128, a_ori: &mut u32, b_ori: u32)
    requires
        pkind(*old(a_perm)) < 7,
        pieces(*old(a_perm)) <= 16,
        forall|i: int| 0 <= i < pieces(*old(a_perm)) ==> #[trigger] pfield(b_perm, i) < 16,
        forall|i: int|
            0 <= i < pieces(*old(a_perm)) ==> #[trigger] ofield(b_ori, i) <= ofield(*old(a_ori), i)
                + ORI_MOD[pkind(*old(a_perm)) as int],
    ensures
        *final(a_perm) == scattered(*old(a_perm), b_perm, pieces(*old(a_perm))),
        *final(a_ori) == ori_scattered(
            *old(a_ori),
            b_perm,
            b_ori,
            pieces(*old(a_perm)),
            ORI_MOD[pkind(*old(a_perm)) as int] as nat,
        ),
{
    let kind = a_perm.get_kind();
    let m = ORI_MOD[kind] as u8;
    let tmp_perm = *a_perm;
    let tmp_ori = *a_ori;
    let count = NUM_PER_KIND[kind];
    let mut i: usize = 0;
    while i < count
        invariant
            i <= count,
            count == pieces(tmp_perm),
            count <= 16,
            m == ORI_MOD[pkind(tmp_perm) as int],
            m >= 1,
            m <= 3,
            forall|k: int| 0 <= k < count ==> #[trigger] pfield(b_perm, k) < 16,
            forall|k: int| 0 <= k < count ==> #[trigger] ofield(b_ori, k) <= ofield(tmp_ori, k) + m,
            *a_perm == scattered(tmp_perm, b_perm, i as nat),
            *a_ori == ori_scattered(tmp_ori, b_perm, b_ori, i as nat, m as nat),
        decreases count - i,
    {
        let idx = b_perm.get(i) as usize;
        a_perm.set(idx, tmp_perm.get(i));
        assert(ofield(b_ori, i as int) <= ofield(tmp_ori, i as int) + m);
        proof {
            lemma_ofield_small(tmp_ori, i as int);
        }
        a_ori.set(idx, (tmp_ori.get(i) + m - b_ori.get(i)) % m);
        i = i + 1;
    }
}

/// Whether the groups `a` and `b` hold pieces that look alike at every
/// position of the pieces of the kind of `a`.
fn eq_subgroup(a: &u128, b: &u128) -> (r: bool)
    requires
        pkind(*a) < 7,
        forall|i: int| 0 <= i < pieces(*a) ==> #[trigger] pfield(*a, i) < 26 && pfield(*b, i) < 26,
    ensures
        r == same_group(*a, *b),
{
    let kind = a.get_kind();
    let ident = IDENTITY_ORD[kind];
    let count = NUM_PER_KIND[a.get_kind()];
    let mut i: usize = 0;
    while i < count
        invariant
            i <= count,
            count == pieces(*a),
            kind == pkind(*a),
            kind < 7,
            ident == IDENTITY_ORD[kind as int],
            forall|k: int| 0 <= k < count ==> #[trigger] pfield(*a, k) < 26 && pfield(*b, k) < 26,
            forall|k: int| 0 <= k < i ==> #[trigger] pfield(ident, pfield(*a, k) as int) == pfield(ident, pfield(*b, k) as int),
        decreases count - i,
    {
        assert(pfield(*a, i as int) < 26);
        let x = a.get(i);
        let y = b.get(i);
        if ident.get(x as usize) != ident.get(y as usize) {
            return false;
        }
        i = i + 1;
    }
    true
}

/// A cube: a tagged permutation word per orbit group, and the tagged
/// orientation words of the corners and of the single edges.
#[derive(Debug, Clone)]
pub struct CubePerm {
    pub perm: Vec<u128>,
    pub ori: [u32; 2],
}

impl CubePerm {
    /// The solved cube of dimension `dimension`, or an error for a
    /// dimension below 2 or from 4292967296 on.
    pub fn try_new(dimension: usize) -> (r: Result<Self, CubeError>)
        requires
            dimension < 2 || dimension >= 4292967296 || dimension * dimension <= usize::MAX,
        ensures
            match r {
                Ok(c) => 2 <= dimension < 4292967296 && c.perm@ == solved_words(dimension as nat, 7) && c.ori
                    == solved_ori(),
                Err(e) => (dimension < 2 || dimension >= 4292967296) && e == (CubeError::InvalidDimension {
                    got: dimension,
                }),
            },
    {
        if dimension < 2 {
            Err(CubeError::InvalidDimension { got: dimension })
        } else if dimension >= 4292967296 {
            Err(CubeError::InvalidDimension { got: dimension })
        } else {
            Ok(Self::new(dimension))
        }
    }

    /// The solved cube with the groups of this one: each word replaced by
    /// the solved word of its kind.
    pub fn identity(&self) -> (r: Self)
        requires
            forall|j: int| 0 <= j < self.perm@.len() ==> pkind(#[trigger] self.perm@[j]) < 7,
        ensures
            r.perm@ == identity_words(self.perm@),
            r.ori == solved_ori(),
    {
        let mut perm: Vec<u128> = Vec::new();
        let mut j: usize = 0;
        while j < self.perm.len()
            invariant
                j <= self.perm@.len(),
                forall|k: int| 0 <= k < self.perm@.len() ==> pkind(#[trigger] self.perm@[k]) < 7,
                perm@ == identity_words(self.perm@).take(j as int),
            decreases self.perm@.len() - j,
        {
            perm.push(IDENTITY_PERM[self.perm[j].get_kind()]);
            j = j + 1;
            assert(perm@ =~= identity_words(self.perm@).take(j as int));
        }
        assert(perm@ =~= identity_words(self.perm@));
        CubePerm { perm, ori: [0, 1 << 29] }
    }

    /// Composes `rhs` after the cube, group by group: the first group with
    /// the corner orientations, the second with the single-edge
    /// orientations when it is of kind 1, every other group as a
    /// permutation.
    pub fn add_assign(&mut self, rhs: &CubePerm)
        requires
            composable(old(self).perm@, rhs.perm@),
        ensures
            final(self).perm@ == perm_sum(old(self).perm@, rhs.perm@),
            final(self).ori@[0] == ori_sum(old(self).perm@, old(self).ori@, rhs.perm@, rhs.ori@, 0),
            final(self).ori@[1] == ori_sum(old(self).perm@, old(self).ori@, rhs.perm@, rhs.ori@, 1),
    {
        let ghost ap = self.perm@;
        let ghost ao = self.ori@;
        let mut o0 = self.ori[0];
        let mut w0 = self.perm[0];
        assert(forall|i: int| 0 <= i < pieces(ap[0]) ==> #[trigger] pfield(rhs.perm@[0], i) < 16);
        add_ori_mut(&mut w0, rhs.perm[0], &mut o0, rhs.ori[0]);
        self.perm.set(0, w0);
        let mut o1 = self.ori[1];
        let mut cont: usize = 1;
        if self.perm.len() > 1 && self.perm[1].get_kind() == 1 {
            let mut w1 = self.perm[1];
            assert(oriented(ap, 1));
            assert(forall|i: int| 0 <= i < pieces(ap[1]) ==> #[trigger] pfield(rhs.perm@[1], i) < 16);
            add_ori_mut(&mut w1, rhs.perm[1], &mut o1, rhs.ori[1]);
            self.perm.set(1, w1);
            cont = 2;
        }
        self.ori = [o0, o1];
        let mut i = cont;
        while i < self.perm.len()
            invariant
                1 <= cont <= i <= self.perm@.len(),
                self.perm@.len() == ap.len(),
                composable(ap, rhs.perm@),
                cont == 2 <==> oriented(ap, 1),
                forall|k: int| 0 <= k < i ==> #[trigger] self.perm@[k] == perm_sum(ap, rhs.perm@)[k],
                forall|k: int| i <= k < ap.len() ==> #[trigger] self.perm@[k] == ap[k],
                self.ori@[0] == ori_sum(ap, ao, rhs.perm@, rhs.ori@, 0),
                self.ori@[1] == ori_sum(ap, ao, rhs.perm@, rhs.ori@, 1),
            decreases ap.len() - i,
        {
            let mut w = self.perm[i];
            assert(!oriented(ap, i as int));
            assert(forall|k: int| 0 <= k < pieces(ap[i as int]) ==> #[trigger] pfield(rhs.perm@[i as int], k) < 26);
            add_perm_mut(&mut w, rhs.perm[i]);
            self.perm.set(i, w);
            i = i + 1;
        }
        assert(self.perm@ =~= perm_sum(ap, rhs.perm@));
    }

    /// Takes `rhs` away from the cube, group by group, as `add_assign`
    /// composes: each piece goes to the position that `rhs` names, with the
    /// orientation of `rhs` taken away.
    pub fn sub_assign(&mut self, rhs: &CubePerm)
        requires
            subtractable(old(self).perm@, old(self).ori@, rhs.perm@, rhs.ori@),
        ensures
            final(self).perm@ == perm_diff(old(self).perm@, rhs.perm@),
            final(self).ori@[0] == ori_diff(old(self).perm@, old(self).ori@, rhs.perm@, rhs.ori@, 0),
            final(self).ori@[1] == ori_diff(old(self).perm@, old(self).ori@, rhs.perm@, rhs.ori@, 1),
    {
        let ghost ap = self.perm@;
        let ghost ao = self.ori@;
        let mut o0 = self.ori[0];
        let mut w0 = self.perm[0];
        assert(forall|i: int| 0 <= i < pieces(ap[0]) ==> #[trigger] pfield(rhs.perm@[0], i) < 16);
        assert(forall|i: int| 0 <= i < pieces(ap[0]) ==> #[trigger] ofield(rhs.ori@[0], i) <= ofield(ao[0], i) + ORI_MOD[pkind(ap[0]) as int]);
        sub_ori_mut(&mut w0, rhs.perm[0], &mut o0, rhs.ori[0]);
        self.perm.set(0, w0);
        let mut o1 = self.ori[1];
        let mut cont: usize = 1;
        if self.perm.len() > 1 && self.perm[1].get_kind() == 1 {
            let mut w1 = self.perm[1];
            assert(oriented(ap, 1));
            assert(forall|i: int| 0 <= i < pieces(ap[1]) ==> #[trigger] pfield(rhs.perm@[1], i) < 16);
            assert(forall|i: int| 0 <= i < pieces(ap[1]) ==> #[trigger] ofield(rhs.ori@[1], i) <= ofield(ao[1], i) + ORI_MOD[pkind(ap[1]) as int]);
            sub_ori_mut(&mut w1, rhs.perm[1], &mut o1, rhs.ori[1]);
            self.perm.set(1, w1);
            cont = 2;
        }
        self.ori = [o0, o1];
        let mut i = cont;
        while i < self.perm.len()
            invariant
                1 <= cont <= i <= self.perm@.len(),
                self.perm@.len() == ap.len(),
                composable(ap, rhs.perm@),
                cont == 2 <==> oriented(ap, 1),
                forall|k: int| 0 <= k < i ==> #[trigger] self.perm@[k] == perm_diff(ap, rhs.perm@)[k],
                forall|k: int| i <= k < ap.len() ==> #[trigger] self.perm@[k] == ap[k],
                self.ori@[0] == ori_diff(ap, ao, rhs.perm@, rhs.ori@, 0),
                self.ori@[1] == ori_diff(ap, ao, rhs.perm@, rhs.ori@, 1),
            decreases ap.len() - i,
        {
            let mut w = self.perm[i];
            assert(!oriented(ap, i as int));
            assert(forall|k: int| 0 <= k < pieces(ap[i as int]) ==> #[trigger] pfield(rhs.perm@[i as int], k) < 26);
            sub_perm_mut(&mut w, rhs.perm[i]);
            self.perm.set(i, w);
            i = i + 1;
        }
        assert(self.perm@ =~= perm_diff(ap, rhs.perm@));
    }

    /// The inverse of the cube: the cube taken away from the solved cube
    /// with its groups.
    pub fn inverse(self) -> (r: Self)
        requires
            forall|j: int| 0 <= j < self.perm@.len() ==> pkind(#[trigger] self.perm@[j]) < 7,
            subtractable(identity_words(self.perm@), solved_ori()@, self.perm@, self.ori@),
        ensures
            r.perm@ == perm_diff(identity_words(self.perm@), self.perm@),
            r.ori@[0] == ori_diff(identity_words(self.perm@), solved_ori()@, self.perm@, self.ori@, 0),
            r.ori@[1] == ori_diff(identity_words(self.perm@), solved_ori()@, self.perm@, self.ori@, 1),
    {
        let mut r = self.identity();
        r.sub_assign(&self);
        r
    }

    /// Whether the cubes have the same orientation words and, group by
    /// group, pieces that look alike at the same positions.
    pub fn eq(&self, other: &Self) -> (r: bool)
        requires
            forall|j: int| 0 <= j < self.perm@.len() ==> pkind(#[trigger] self.perm@[j]) < 7,
            forall|j: int, i: int|
                0 <= j < self.perm@.len() && 0 <= i < pieces(self.perm@[j]) ==> #[trigger] pfield(self.perm@[j], i)
                    < 26,
            self.perm@.len() == other.perm@.len() ==> forall|j: int, i: int|
                0 <= j < self.perm@.len() && 0 <= i < pieces(self.perm@[j]) ==> #[trigger] pfield(other.perm@[j], i)
                    < 26,
        ensures
            r == (self.perm@.len() == other.perm@.len() && self.ori@ == other.ori@ && forall|j: int|
                0 <= j < self.perm@.len() ==> same_group(#[trigger] self.perm@[j], other.perm@[j])),
    {
        if self.perm.len() != other.perm.len() {
            return false;
        }
        if self.ori[0] != other.ori[0] || self.ori[1] != other.ori[1] {
            assert(self.ori@ != other.ori@) by {
                if self.ori@ == other.ori@ {
                    assert(self.ori@[0] == other.ori@[0] && self.ori@[1] == other.ori@[1]);
                }
            }
            return false;
        }
        assert(self.ori@ =~= other.ori@);
        let mut j: usize = 0;
        while j < self.perm.len()
            invariant
                j <= self.perm@.len(),
                self.perm@.len() == other.perm@.len(),
                forall|k: int| 0 <= k < self.perm@.len() ==> pkind(#[trigger] self.perm@[k]) < 7,
                forall|k: int, i: int|
                    0 <= k < self.perm@.len() && 0 <= i < pieces(self.perm@[k]) ==> #[trigger] pfield(self.perm@[k], i)
                        < 26,
                forall|k: int, i: int|
                    0 <= k < self.perm@.len() && 0 <= i < pieces(self.perm@[k]) ==> #[trigger] pfield(other.perm@[k], i)
                        < 26,
                forall|k: int| 0 <= k < j ==> same_group(#[trigger] self.perm@[k], other.perm@[k]),
            decreases self.perm@.len() - j,
        {
            if !eq_subgroup(&self.perm[j], &other.perm[j]) {
                return false;
            }
            j = j + 1;
        }
        true
    }

    /// The fields and kinds of the permutation words, then those of the
    /// orientation words.
    pub fn to_vec(&self) -> (r: (Vec<Vec<u8>>, Vec<Vec<u8>>))
        requires
            forall|j: int| 0 <= j < self.perm@.len() ==> pkind(#[trigger] self.perm@[j]) < 7,
            forall|j: int| 0 <= j < 2 ==> okind(#[trigger] self.ori@[j]) < 3,
        ensures
            r.0@.len() == self.perm@.len(),
            forall|j: int| 0 <= j < self.perm@.len() ==> (#[trigger] r.0@[j])@ == plisted(self.perm@[j], pieces(self.perm@[j])),
            r.1@.len() == 2,
            forall|j: int| 0 <= j < 2 ==> (#[trigger] r.1@[j])@ == olisted(self.ori@[j], NUM_PER_KIND[okind(self.ori@[j]) as int] as nat),
    {
        let mut perm: Vec<Vec<u8>> = Vec::new();
        let mut j: usize = 0;
        while j < self.perm.len()
            invariant
                j <= self.perm@.len(),
                perm@.len() == j,
                forall|k: int| 0 <= k < self.perm@.len() ==> pkind(#[trigger] self.perm@[k]) < 7,
                forall|k: int| 0 <= k < j ==> (#[trigger] perm@[k])@ == plisted(self.perm@[k], pieces(self.perm@[k])),
            decreases self.perm@.len() - j,
        {
            perm.push(self.perm[j].to_vec());
            j = j + 1;
        }
        let mut ori: Vec<Vec<u8>> = Vec::new();
        assert(okind(self.ori@[0]) < 3 && okind(self.ori@[1]) < 3);
        ori.push(self.ori[0].to_vec());
        ori.push(self.ori[1].to_vec());
        (perm, ori)
    }

    /// The cube read back from the lists that `to_vec` gives: a permutation
    /// word from each list of the first part, an orientation word from each
    /// of the first two lists of the second.
    pub fn from_vec(vect: (Vec<Vec<u8>>, Vec<Vec<u8>>)) -> (r: Self)
        requires
            forall|j: int| 0 <= j < vect.0@.len() ==> preadable((#[trigger] vect.0@[j])@),
            vect.1@.len() >= 2,
            oreadable(vect.1@[0]@),
            oreadable(vect.1@[1]@),
        ensures
            r.perm@.len() == vect.0@.len(),
            forall|j: int| 0 <= j < vect.0@.len() ==> #[trigger] r.perm@[j] == pword_of(vect.0@[j]@),
            r.ori@[0] == oword_of(vect.1@[0]@),
            r.ori@[1] == oword_of(vect.1@[1]@),
    {
        let o0 = u32::from_vec(vect.1[0].as_slice());
        let o1 = u32::from_vec(vect.1[1].as_slice());
        let mut perm: Vec<u128> = Vec::new();
        let mut j: usize = 0;
        while j < vect.0.len()
            invariant
                j <= vect.0@.len(),
                perm@.len() == j,
                forall|k: int| 0 <= k < vect.0@.len() ==> preadable((#[trigger] vect.0@[k])@),
                forall|k: int| 0 <= k < j ==> #[trigger] perm@[k] == pword_of(vect.0@[k]@),
            decreases vect.0@.len() - j,
        {
            assert(preadable(vect.0@[j as int]@));
            perm.push(u128::from_vec(vect.0[j].as_slice()));
            j = j + 1;
        }
        CubePerm { perm, ori: [o0, o1] }
    }

    /// The solved cube of dimension `dimension`: the solved word of every
    /// group, kind after kind.
    pub fn new(dimension: usize) -> (r: Self)
        requires
            dimension >= 2,
            dimension * dimension <= usize::MAX,
        ensures
            r.perm@ == solved_words(dimension as nat, 7),
            r.ori == solved_ori(),
    {
        let dim_mod_2 = dimension % 2;
        let tmp1 = (dimension - 2 - dim_mod_2) / 2;
        let ghost d = dimension as nat;
        let ghost t = tmp1 as nat;
        let ghost m = dim_mod_2 as nat;
        assert(dimension == 2 * tmp1 + 2 + dim_mod_2);
        assert((dimension - 2) * (dimension - 2) == 4 * (tmp1 * tmp1 + tmp1 * dim_mod_2) + dim_mod_2
            && (dimension - 2) * (dimension - 2) <= dimension * dimension && tmp1 * (dim_mod_2 + 1)
            <= tmp1 * tmp1 + tmp1 * dim_mod_2 && tmp1 * dim_mod_2 <= tmp1 * tmp1 + tmp1 * dim_mod_2)
            by (nonlinear_arith)
            requires
                dimension == 2 * tmp1 + 2 + dim_mod_2,
                dim_mod_2 == 0 || dim_mod_2 == 1,
                tmp1 >= 0,
        ;
        let sq = (dimension - 2) * (dimension - 2);
        assert((sq - dim_mod_2) / 4 == tmp1 * tmp1 + tmp1 * dim_mod_2);
        let last = ((dimension - 2) * (dimension - 2) - dim_mod_2) / 4 - tmp1 * (dim_mod_2 + 1);
        let subgroups: [usize; 7] = [1, dim_mod_2, dim_mod_2, tmp1, tmp1, tmp1 * dim_mod_2, last];
        assert forall|k: int| 0 <= k < 7 implies #[trigger] subgroups@[k] == group_counts(d)[k] by {
            assert(group_counts(d) =~= seq![1, m, m, t, t, t * m, (((d - 2) * (d - 2) - m) / 4 - t * (m + 1)) as nat]);
        }
        let mut perm: Vec<u128> = Vec::new();
        let mut i: usize = 0;
        while i < 7
            invariant
                i <= 7,
                forall|k: int| 0 <= k < 7 ==> #[trigger] subgroups@[k] == group_counts(d)[k],
                perm@ == solved_words(d, i as nat),
            decreases 7 - i,
        {
            let count = subgroups[i];
            let ghost before = perm@;
            let mut j: usize = 0;
            while j < count
                invariant
                    j <= count,
                    i < 7,
                    perm@ == before + Seq::new(j as nat, |x: int| IDENTITY_PERM[i as int]),
                decreases count - j,
            {
                perm.push(IDENTITY_PERM[i]);
                j = j + 1;
                assert(perm@ =~= before + Seq::new(j as nat, |x: int| IDENTITY_PERM[i as int]));
            }
            assert(count == group_counts(d)[i as int]);
            assert(perm@ =~= solved_words(d, (i + 1) as nat));
            i = i + 1;
        }
        CubePerm { perm, ori: [0, 1 << 29] }
    }
}


/// The cycle through the leader `i` of the permutation in the fields of
/// `w`, as the walk that starts from the piece that `i` names lists it:
/// from the position two steps after `i`, once round.
pub open spec fn walked_cycle(w: u128, l: nat, i: int) -> Seq<int> {
    Seq::new(period(w, 31, l, i), |s: int| iter(w, 31, i, (s + 2) as nat))
}

/// The walked cycles of the leaders below `m`, in the order of their leaders.
pub open spec fn walked_cycles(w: u128, l: nat, m: nat) -> Seq<Seq<int>>
    decreases m,
{
    if m == 0 {
        Seq::empty()
    } else if leader(w, 31, m - 1) {
        walked_cycles(w, l, (m - 1) as nat).push(walked_cycle(w, l, m - 1))
    } else {
        walked_cycles(w, l, (m - 1) as nat)
    }
}

/// The cycles of the permutation packed in `value`, fixed pieces included,
/// one for each smallest position of a cycle in increasing order; each is
/// listed by the walk that starts from the piece that its smallest position
/// names.
pub fn _get_perm(value: u128) -> (r: Vec<Vec<usize>>)
    requires
        pkind(value) < 7,
        is_perm(value, 31, pieces(value)),
    ensures
        lists_cycles(r@, walked_cycles(value, pieces(value), pieces(value))),
{
    let len = NUM_PER_KIND[value.get_kind()];
    let ghost l = len as nat;
    let mut seen: Vec<bool> = Vec::new();
    let mut z: usize = 0;
    while z < len
        invariant
            z <= len,
            seen@.len() == z,
            forall|x: int| 0 <= x < z ==> !seen@[x],
        decreases len - z,
    {
        seen.push(false);
        z = z + 1;
    }
    let mut vect: Vec<Vec<usize>> = Vec::new();
    let mut piece: usize = 0;
    while piece < len
        invariant
            l == len,
            len <= 24,
            is_perm(value, 31, l),
            piece <= len,
            seen@.len() == len,
            forall|x: int| 0 <= x < len ==> (seen@[x] <==> reached_below(value, 31, piece as int, x)),
            lists_cycles(vect@, walked_cycles(value, l, piece as nat)),
        decreases len - piece,
    {
        if !seen[piece] {
            let i = piece;
            assert(leader(value, 31, i as int));
            proof {
                lemma_period(value, 31, l, i as int);
            }
            let ghost p = period(value, 31, l, i as int);
            let ghost mut t: nat = 1;
            let mut perm: Vec<usize> = Vec::new();
            let mut j = next_position(value, 31, len, i);
            while !seen[j]
                invariant
                    l == len,
                    len <= 24,
                    is_perm(value, 31, l),
                    i < len,
                    leader(value, 31, i as int),
                    p == period(value, 31, l, i as int),
                    1 <= p <= len,
                    iter(value, 31, i as int, p) == i,
                    forall|u: nat| 1 <= u < p ==> #[trigger] iter(value, 31, i as int, u) != i,
                    1 <= t <= p + 1,
                    j < len,
                    j as int == iter(value, 31, i as int, t),
                    perm@.len() == t - 1,
                    forall|s: int| 0 <= s < t - 1 ==> perm@[s] as int == iter(value, 31, i as int, (s + 2) as nat),
                    seen@.len() == len,
                    forall|x: int|
                        0 <= x < len ==> (seen@[x] <==> (reached_below(value, 31, i as int, x)
                            || exists|s: nat| 1 <= s < t && #[trigger] iter(value, 31, i as int, s) == x)),
                decreases p + 1 - t,
            {
                proof {
                    if t == p + 1 {
                        lemma_iter_add(value, 31, i as int, p, 1);
                        assert(iter(value, 31, i as int, 1) == j);
                        assert(seen@[j as int]);
                    }
                }
                seen.set(j, true);
                j = next_position(value, 31, len, j);
                perm.push(j);
                proof {
                    lemma_iter_add(value, 31, i as int, t, 1);
                    t = t + 1;
                }
            }
            proof {
                lemma_leader_cycle(value, 31, l, i as int, t);
                if t <= p {
                    let s = choose|s: nat| 1 <= s < t && #[trigger] iter(value, 31, i as int, s) == iter(
                        value,
                        31,
                        i as int,
                        t,
                    );
                    if t < p {
                        lemma_cycle_distinct(value, 31, l, i as int, s, t);
                    } else {
                        assert(iter(value, 31, i as int, 0) == i);
                        lemma_cycle_distinct(value, 31, l, i as int, 0, s);
                    }
                }
                assert(t == p + 1);
                assert forall|x: int| 0 <= x < len implies (seen@[x] <==> reached_below(
                    value,
                    31,
                    i + 1,
                    x,
                )) by {
                    lemma_mark_leader(value, 31, l, i as int, x);
                    if exists|s: nat| 1 <= s < t && #[trigger] iter(value, 31, i as int, s) == x {
                        let s = choose|s: nat| 1 <= s < t && #[trigger] iter(value, 31, i as int, s) == x;
                        if s == p {
                            assert(iter(value, 31, i as int, 0) == x);
                        } else {
                            assert(iter(value, 31, i as int, s) == x);
                        }
                    }
                    if exists|s: nat| s < p && #[trigger] iter(value, 31, i as int, s) == x {
                        let s = choose|s: nat| s < p && #[trigger] iter(value, 31, i as int, s) == x;
                        if s == 0 {
                            assert(iter(value, 31, i as int, p) == x);
                        } else {
                            assert(iter(value, 31, i as int, s) == x);
                        }
                    }
                }
            }
            let ghost old_vect = vect@;
            vect.push(perm);
            proof {
                let cs = walked_cycles(value, l, i as nat);
                let c = walked_cycle(value, l, i as int);
                assert(walked_cycles(value, l, (i + 1) as nat) == cs.push(c));
                assert forall|k: int| 0 <= k < vect@.len() implies (#[trigger] vect@[k])@.len()
                    == cs.push(c)[k].len() && forall|s: int|
                    0 <= s < cs.push(c)[k].len() ==> vect@[k]@[s] as int == cs.push(c)[k][s] by {
                    if k < old_vect.len() {
                        assert(vect@[k] == old_vect[k]);
                    }
                }
            }
        } else {
            proof {
                assert forall|x: int| 0 <= x < len implies (seen@[x] <==> reached_below(
                    value,
                    31,
                    piece + 1,
                    x,
                )) by {
                    lemma_skip_follower(value, 31, piece as int, x);
                }
            }
        }
        piece = piece + 1;
    }
    vect
}


/// Every word of `perm` names a kind and holds a permutation of the
/// positions of its pieces.
pub open spec fn perms_valid(perm: Seq<u128>) -> bool {
    forall|j: int| 0 <= j < perm.len() ==> pkind(#[trigger] perm[j]) < 7 && is_perm(perm[j], 31, pieces(perm[j]))
}

/// The walked cycles of the permutation word `w`.
pub open spec fn word_cycles(w: u128) -> Seq<Seq<int>> {
    walked_cycles(w, pieces(w), pieces(w))
}

/// The sum of the orientation fields `0 .. n` of `w`.
pub open spec fn ori_total(w: u32, n: nat) -> nat
    decreases n,
{
    if n == 0 {
        0
    } else {
        ori_total(w, (n - 1) as nat) + ofield(w, n - 1) as nat
    }
}

/// Orientation word `i` of `ori` does not add up to a multiple of the
/// modulus of kind `i` over the pieces of that kind.
pub open spec fn ori_bad(ori: [u32; 2], i: int) -> bool {
    ori_total(ori@[i], NUM_PER_KIND[i] as nat) % (ORI_MOD[i] as nat) != 0
}

/// The positions of the first `n` orientation fields of `w`, each with its
/// orientation.
pub open spec fn ori_pairs(w: u32, n: nat) -> Seq<(u8, u8)> {
    Seq::new(n, |j: int| (j as u8, ofield(w, j)))
}

/// The number of cycles of even length in `cs`.
pub open spec fn even_count(cs: Seq<Seq<int>>) -> nat
    decreases cs.len(),
{
    if cs.len() == 0 {
        0
    } else {
        even_count(cs.drop_last()) + if cs.last().len() % 2 == 0 {
            1nat
        } else {
            0nat
        }
    }
}

/// Whether the words of `perm` below `k` have an odd number of cycles of
/// even length in all.
pub open spec fn perm_parity(perm: Seq<u128>, k: nat) -> bool
    decreases k,
{
    if k == 0 {
        false
    } else {
        perm_parity(perm, (k - 1) as nat) != (even_count(word_cycles(perm[k - 1])) % 2 == 1)
    }
}

impl CubePerm {
    /// The cycles of every permutation word, word by word.
    pub fn get_perm_list(&self) -> (r: Vec<Vec<Vec<usize>>>)
        requires
            perms_valid(self.perm@),
        ensures
            r@.len() == self.perm@.len(),
            forall|j: int| 0 <= j < self.perm@.len() ==> lists_cycles((#[trigger] r@[j])@, word_cycles(self.perm@[j])),
    {
        let mut out: Vec<Vec<Vec<usize>>> = Vec::new();
        let mut j: usize = 0;
        while j < self.perm.len()
            invariant
                j <= self.perm@.len(),
                out@.len() == j,
                perms_valid(self.perm@),
                forall|k: int| 0 <= k < j ==> lists_cycles((#[trigger] out@[k])@, word_cycles(self.perm@[k])),
            decreases self.perm@.len() - j,
        {
            assert(pkind(self.perm@[j as int]) < 7);
            out.push(_get_perm(self.perm[j]));
            j = j + 1;
        }
        out
    }

    /// Checks the cube: the corner orientations must add up to a multiple of
    /// 3 and the single-edge orientations to a multiple of 2 (else the
    /// orientation error for the first word that fails, with its positions
    /// and orientations), and the cycles of even length of all the words
    /// together must be even in number (else the permutation error).
    pub fn check(&self) -> (r: Result<(), CubeError>)
        requires
            perms_valid(self.perm@),
        ensures
            ori_bad(self.ori, 0) ==> (r matches Err(CubeError::InvalidOrientation { got, mod_ }) && got@
                == ori_pairs(self.ori@[0], 8) && mod_ == 3),
            !ori_bad(self.ori, 0) && ori_bad(self.ori, 1) ==> (r matches Err(
                CubeError::InvalidOrientation { got, mod_ },
            ) && got@ == ori_pairs(self.ori@[1], 12) && mod_ == 2),
            !ori_bad(self.ori, 0) && !ori_bad(self.ori, 1) && perm_parity(self.perm@, self.perm@.len())
                ==> (r matches Err(CubeError::InvalidPermutation { got }) && got@.len() == 0),
            !ori_bad(self.ori, 0) && !ori_bad(self.ori, 1) && !perm_parity(self.perm@, self.perm@.len())
                ==> r is Ok,
    {
        let mut i: usize = 0;
        while i < 2
            invariant
                i <= 2,
                forall|k: int| 0 <= k < i ==> !ori_bad(self.ori, k),
            decreases 2 - i,
        {
            let count = NUM_PER_KIND[i];
            let w = self.ori[i];
            let mut sum: u8 = 0;
            let mut j: usize = 0;
            while j < count
                invariant
                    i < 2,
                    count == NUM_PER_KIND[i as int],
                    w == self.ori@[i as int],
                    j <= count,
                    sum == ori_total(w, j as nat),
                    sum <= 3 * j,
                decreases count - j,
            {
                proof {
                    lemma_ofield_small(w, j as int);
                }
                sum = sum + w.get(j);
                j = j + 1;
            }
            if sum % (ORI_MOD[i] as u8) != 0 {
                let mut got: Vec<(u8, u8)> = Vec::new();
                let mut k: usize = 0;
                while k < count
                    invariant
                        i < 2,
                        count == NUM_PER_KIND[i as int],
                        w == self.ori@[i as int],
                        k <= count,
                        got@ == ori_pairs(w, k as nat),
                    decreases count - k,
                {
                    got.push((k as u8, w.get(k)));
                    k = k + 1;
                    assert(got@ =~= ori_pairs(w, k as nat));
                }
                return Err(CubeError::InvalidOrientation { got, mod_: ORI_MOD[i] });
            }
            i = i + 1;
        }
        let lists = self.get_perm_list();
        let mut parity = false;
        let mut a: usize = 0;
        while a < lists.len()
            invariant
                lists@.len() == self.perm@.len(),
                forall|j: int| 0 <= j < self.perm@.len() ==> lists_cycles((#[trigger] lists@[j])@, word_cycles(self.perm@[j])),
                a <= lists@.len(),
                parity == perm_parity(self.perm@, a as nat),
            decreases lists@.len() - a,
        {
            let ghost cs = word_cycles(self.perm@[a as int]);
            let mut odd = false;
            let mut b: usize = 0;
            while b < lists[a].len()
                invariant
                    a < lists@.len(),
                    lists_cycles(lists@[a as int]@, cs),
                    b <= lists@[a as int]@.len(),
                    odd == (even_count(cs.take(b as int)) % 2 == 1),
                decreases lists@[a as int]@.len() - b,
            {
                assert(cs.take(b as int + 1).drop_last() =~= cs.take(b as int));
                if lists[a][b].len() % 2 == 0 {
                    odd = !odd;
                }
                b = b + 1;
            }
            assert(cs.take(b as int) =~= cs);
            parity = parity != odd;
            a = a + 1;
        }
        if parity {
            return Err(CubeError::InvalidPermutation { got: Vec::new() });
        }
        Ok(())
    }
}


/// The running least common multiple of `o` and the lengths of the cycles
/// `cs`, taken one after the other.
pub open spec fn lcm_lengths(o: nat, cs: Seq<Seq<int>>) -> nat
    decreases cs.len(),
{
    if cs.len() == 0 {
        o
    } else {
        spec_lcm(lcm_lengths(o, cs.drop_last()), cs.last().len())
    }
}

/// The least common multiple of the lengths of the cycles of the words of
/// `perm` below `k`.
pub open spec fn perm_modulus(perm: Seq<u128>, k: nat) -> nat
    decreases k,
{
    if k == 0 {
        1
    } else {
        lcm_lengths(perm_modulus(perm, (k - 1) as nat), word_cycles(perm[k - 1]))
    }
}

/// The modulus of the cube: the least common multiple of the lengths of
/// all its cycles, times 3 when the corner orientation word is not the
/// solved one and times 2 when the single-edge orientation word is not.
pub open spec fn cube_modulus(perm: Seq<u128>, ori: [u32; 2]) -> nat {
    perm_modulus(perm, perm.len()) * (if ori@[0] != 0 {
        3nat
    } else {
        1nat
    }) * (if ori@[1] != 1u32 << 29u32 {
        2nat
    } else {
        1nat
    })
}

/// Every walked cycle of a permutation has at least one position.
proof fn lemma_walked_nonempty(w: u128, l: nat, m: nat)
    requires
        is_perm(w, 31, l),
        m <= l,
    ensures
        forall|c: int| 0 <= c < walked_cycles(w, l, m).len() ==> #[trigger] walked_cycles(w, l, m)[c].len() >= 1,
    decreases m,
{
    if m > 0 {
        let prev = walked_cycles(w, l, (m - 1) as nat);
        lemma_walked_nonempty(w, l, (m - 1) as nat);
        lemma_period(w, 31, l, m - 1);
        if leader(w, 31, m - 1) {
            let cur = prev.push(walked_cycle(w, l, m - 1));
            assert(walked_cycles(w, l, m) == cur);
            assert forall|c: int| 0 <= c < cur.len() implies #[trigger] cur[c].len() >= 1 by {
                if c < prev.len() {
                    assert(cur[c] == prev[c]);
                }
            }
        }
    }
}

/// The running least common multiple of positive lengths is positive and
/// only grows.
proof fn lemma_lengths_grow(o: nat, cs: Seq<Seq<int>>, k: int)
    requires
        o >= 1,
        forall|c: int| 0 <= c < cs.len() ==> #[trigger] cs[c].len() >= 1,
        0 <= k <= cs.len(),
    ensures
        1 <= lcm_lengths(o, cs.take(k)) <= lcm_lengths(o, cs),
        o <= lcm_lengths(o, cs),
    decreases cs.len(),
{
    if cs.len() == 0 {
        assert(cs.take(k) =~= cs);
    } else {
        let d = cs.drop_last();
        lemma_lengths_grow(o, d, if k == cs.len() { d.len() as int } else { k });
        law_lcm(lcm_lengths(o, d), cs.last().len());
        if k == cs.len() {
            assert(cs.take(k) =~= cs);
        } else {
            assert(cs.take(k) =~= d.take(k));
        }
    }
}

/// The modulus of the first `k` words is positive and only grows with `k`.
proof fn lemma_modulus_grows(perm: Seq<u128>, k: nat, m: nat)
    requires
        perms_valid(perm),
        k <= m <= perm.len(),
    ensures
        1 <= perm_modulus(perm, k) <= perm_modulus(perm, m),
    decreases m,
{
    if m > 0 {
        let w = perm[m - 1];
        assert(pkind(w) < 7 && is_perm(w, 31, pieces(w)));
        lemma_walked_nonempty(w, pieces(w), pieces(w));
        if k == m {
            lemma_modulus_grows(perm, (m - 1) as nat, (m - 1) as nat);
        } else {
            lemma_modulus_grows(perm, k, (m - 1) as nat);
        }
        lemma_lengths_grow(perm_modulus(perm, (m - 1) as nat), word_cycles(w), 0);
    }
}

impl CubePerm {
    /// The modulus of the cube: the least common multiple of the lengths of
    /// the cycles of all its words, times 3 when the corners are not all
    /// in their solved orientation and times 2 when the single edges are not.
    pub fn get_modulus(&self) -> (r: usize)
        requires
            perms_valid(self.perm@),
            cube_modulus(self.perm@, self.ori) <= usize::MAX,
        ensures
            r == cube_modulus(self.perm@, self.ori),
    {
        let ghost perm = self.perm@;
        let ghost len = perm.len();
        proof {
            lemma_modulus_grows(perm, len, len);
            let t = perm_modulus(perm, len);
            let x: nat = if self.ori@[0] != 0 { 3 } else { 1 };
            let y: nat = if self.ori@[1] != 1u32 << 29u32 { 2 } else { 1 };
            assert(t <= t * x * y && t * x <= t * x * y) by (nonlinear_arith)
                requires
                    t >= 1,
                    x >= 1,
                    y >= 1,
            ;
        }
        let lists = self.get_perm_list();
        let mut m: usize = 1;
        let mut a: usize = 0;
        while a < lists.len()
            invariant
                perm == self.perm@,
                len == perm.len(),
                perms_valid(perm),
                lists@.len() == len,
                forall|j: int| 0 <= j < len ==> lists_cycles((#[trigger] lists@[j])@, word_cycles(perm[j])),
                a <= len,
                m == perm_modulus(perm, a as nat),
                perm_modulus(perm, len) <= usize::MAX,
            decreases len - a,
        {
            let ghost w = perm[a as int];
            let ghost cs = word_cycles(w);
            let ghost base = m as nat;
            proof {
                assert(pkind(w) < 7 && is_perm(w, 31, pieces(w)));
                lemma_walked_nonempty(w, pieces(w), pieces(w));
                lemma_modulus_grows(perm, (a + 1) as nat, len);
                lemma_modulus_grows(perm, a as nat, len);
            }
            let mut b: usize = 0;
            while b < lists[a].len()
                invariant
                    a < lists@.len(),
                    lists_cycles(lists@[a as int]@, cs),
                    forall|c: int| 0 <= c < cs.len() ==> #[trigger] cs[c].len() >= 1,
                    base >= 1,
                    lcm_lengths(base, cs) <= usize::MAX,
                    b <= lists@[a as int]@.len(),
                    m == lcm_lengths(base, cs.take(b as int)),
                decreases lists@[a as int]@.len() - b,
            {
                assert(cs.take(b as int + 1).drop_last() =~= cs.take(b as int));
                proof {
                    lemma_lengths_grow(base, cs, b as int + 1);
                    lemma_lengths_grow(base, cs, b as int);
                    assert(cs[b as int].len() >= 1);
                }
                m = lcm_step(m, lists[a][b].len());
                b = b + 1;
            }
            assert(cs.take(b as int) =~= cs);
            a = a + 1;
        }
        assert(m == perm_modulus(perm, len));
        if self.ori[0] != 0 {
            m = m * 3;
        }
        if self.ori[1] != 1 << 29 {
            m = m * 2;
        }
        m
    }
}


/// The pieces of kind `kind` in solved order, those that look alike
/// sharing a value: piece `i` holds `i` divided by the number of pieces per
/// distinguishable piece.
pub open spec fn unique_ranks(kind: int) -> Seq<u8> {
    Seq::new(NUM_PER_KIND[kind] as nat, |i: int| (i / NUM_PER_UNIQUE[kind] as int) as u8)
}

/// The solved word of kind `kind` with pieces that look alike sharing a
/// value: the tag of `kind` with the fields set from `unique_ranks`.
pub fn _new_subgroup(kind: usize) -> (r: u128)
    requires
        kind < 7,
    ensures
        r == pfilled((kind as u128) << 125u128, unique_ranks(kind as int), NUM_PER_KIND[kind as int] as nat),
{
    let mut tmp = (kind as u128) << 125u128;
    let ghost start = tmp;
    let ghost v = unique_ranks(kind as int);
    let count = PERM_MOD[kind];
    let per = NUM_PER_UNIQUE[kind];
    assert(count * per == NUM_PER_KIND[kind as int]) by {
        if kind == 0 {
        } else if kind == 1 {
        } else if kind == 2 {
        } else if kind == 3 {
        } else if kind == 4 {
        } else if kind == 5 {
        } else {
        }
    }
    let mut j: usize = 0;
    while j < count
        invariant
            kind < 7,
            count == PERM_MOD[kind as int],
            per == NUM_PER_UNIQUE[kind as int],
            count * per == NUM_PER_KIND[kind as int],
            v == unique_ranks(kind as int),
            j <= count,
            tmp == pfilled(start, v, (j * per) as nat),
        decreases count - j,
    {
        assert(j * per + per == (j + 1) * per && (j + 1) * per <= count * per) by (nonlinear_arith)
            requires
                j < count,
        ;
        let mut k: usize = 0;
        while k < per
            invariant
                kind < 7,
                per == NUM_PER_UNIQUE[kind as int],
                count * per == NUM_PER_KIND[kind as int],
                v == unique_ranks(kind as int),
                j < count,
                k <= per,
                (j + 1) * per <= count * per,
                j * per + per == (j + 1) * per,
                tmp == pfilled(start, v, (j * per + k) as nat),
            decreases per - k,
        {
            assert((j * per + k) / (per as int) == j) by (nonlinear_arith)
                requires
                    k < per,
                    per > 0,
            ;
            assert(v[j * per + k] == j as u8);
            tmp.set(j * per + k, j as u8);
            k = k + 1;
        }
        j = j + 1;
    }
    tmp
}

} // verus!
