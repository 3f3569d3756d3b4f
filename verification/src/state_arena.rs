//! A sparse set of packed cube states addressed by id.
//!
//! `sparse[id]` is the dense index of the state stored for `id`, and
//! `dense_id[d]` the id stored at dense index `d`; the states are kept one
//! after the other, `n_orbits` words each, in dense order.  Removing a
//! state moves the last one into its place.
use vstd::prelude::*;

use crate::arena::{lemma_slot_disjoint, lemma_slot_range, lemma_splice, ID_24, ID_CENTER, ID_CORNER, ID_EDGE};
use crate::bits::{build, scatter};
use crate::group::{lemma_onto, reached};
use crate::kinds::{Center, Corner, Piece24};
use crate::ops::{
    ori_fn, pos_fn, spec_add_ori, spec_add_perm, spec_sub_ori, spec_sub_perm, unori_fn, word_positions,
};
use crate::orbit_words::{add_12, add_24, add_6, add_8, sub_12, sub_24, sub_6, sub_8};
use crate::state_layout::state_len;

verus! {

/// The words of the solved state of a cube of dimension `n`: the corners,
/// for odd dimensions the single edges and the fixed centers, then the
/// 24-piece orbits.
pub open spec fn solved_state(n: nat) -> Seq<u128> {
    Seq::new(
        state_len(n) as nat,
        |i: int|
            if i == 0 {
                ID_CORNER
            } else if n % 2 == 1 && i == 1 {
                ID_EDGE
            } else if n % 2 == 1 && i == 2 {
                ID_CENTER
            } else {
                ID_24
            },
    )
}

/// The number of words of a state: `1 + 2 m + t * t + t + t * m` with
/// `m = n % 2` and `t = (n - 2 - m) / 2`, and at least one.
proof fn lemma_state_len(n: nat)
    requires
        n >= 2,
    ensures
        state_len(n) >= 1,
        ({
            let m = n % 2;
            let t = ((n - 2 - m) / 2) as nat;
            state_len(n) == 1 + 2 * m + t * t + t + t * m
        }),
{
    let m = n % 2;
    let t = ((n - 2 - m) / 2) as nat;
    assert(n == 2 * t + 2 + m);
    assert(n * n + 5 * m - 2 * n + 4 == 4 * (1 + 2 * m + t * t + t + t * m)) by (nonlinear_arith)
        requires
            n == 2 * t + 2 + m,
            m == 0 || m == 1,
    ;
}

/// The corner word of `x + y`: the corners held in the low 64 bits of each
/// word composed.
pub open spec fn corner_sum(x: u128, y: u128) -> u128 {
    (spec_add_ori::<Corner>((x as u64) as u128, (y as u64) as u128) as u64) as u128
}

/// The corner word of `x - y`: the corners held in the low 64 bits of each
/// word.
pub open spec fn corner_diff(x: u128, y: u128) -> u128 {
    (spec_sub_ori::<Corner>((x as u64) as u128, (y as u64) as u128) as u64) as u128
}

/// Word `i` of `x + y` for states of dimension `n`, as `add_assign`
/// composes it: word 0 as corners, for even dimensions word 1 as single
/// edges and word 2 as fixed centers, every other word as a 24-piece orbit.
pub open spec fn word_sum(n: nat, i: int, x: u128, y: u128) -> u128 {
    if i == 0 {
        corner_sum(x, y)
    } else if n % 2 == 0 && i == 1 {
        build(ori_fn(x, y, 15, 4, 2), 12)
    } else if n % 2 == 0 && i == 2 {
        spec_add_perm::<Center>(x, y)
    } else {
        spec_add_perm::<Piece24>(x, y)
    }
}

/// Word `i` of `x - y` for states of dimension `n`, the words read as by
/// `word_sum`.
pub open spec fn word_diff(n: nat, i: int, x: u128, y: u128) -> u128 {
    if i == 0 {
        corner_diff(x, y)
    } else if n % 2 == 0 && i == 1 {
        scatter(unori_fn(x, y, 15, 4, 2), pos_fn(y, 15), 12)
    } else if n % 2 == 0 && i == 2 {
        spec_sub_perm::<Center>(x, y)
    } else {
        spec_sub_perm::<Piece24>(x, y)
    }
}

/// The state `x + y` of dimension `n`, word by word.
pub open spec fn state_add(n: nat, x: Seq<u128>, y: Seq<u128>) -> Seq<u128> {
    Seq::new(x.len(), |i: int| word_sum(n, i, x[i], y[i]))
}

/// The state `x - y` of dimension `n`, word by word.
pub open spec fn state_sub(n: nat, x: Seq<u128>, y: Seq<u128>) -> Seq<u128> {
    Seq::new(x.len(), |i: int| word_diff(n, i, x[i], y[i]))
}

/// Word `i` of `y` names positions in range where it is read by blocks:
/// word 2 for even dimensions (six blocks), and every 24-piece word.
pub open spec fn word_positions_at(n: nat, i: int, y: u128) -> bool {
    &&& n % 2 == 0 && i == 2 ==> word_positions(y, 6)
    &&& (if n % 2 == 0 { 3int } else { 1int }) <= i ==> word_positions(y, 24)
}

/// Every word of `y` names positions in range where it is read by blocks.
pub open spec fn state_positions(n: nat, y: Seq<u128>) -> bool {
    forall|i: int| 0 <= i < y.len() ==> word_positions_at(n, i, #[trigger] y[i])
}

/// Word `i` of `x + y` (when `add`) or of `x - y`.
fn combine_word(n: usize, i: usize, x: u128, y: u128, add: bool) -> (r: u128)
    requires
        word_positions_at(n as nat, i as int, y),
    ensures
        r == (if add {
            word_sum(n as nat, i as int, x, y)
        } else {
            word_diff(n as nat, i as int, x, y)
        }),
{
    if i == 0 {
        let mut c = x as u64;
        if add {
            add_8(&mut c, y as u64);
        } else {
            sub_8(&mut c, y as u64);
        }
        c as u128
    } else if n % 2 == 0 && i == 1 {
        let mut e = x;
        if add {
            add_12(&mut e, y);
        } else {
            sub_12(&mut e, y);
        }
        e
    } else if n % 2 == 0 && i == 2 {
        let mut z = x;
        if add {
            add_6(&mut z, y);
        } else {
            sub_6(&mut z, y);
        }
        z
    } else {
        let mut w = x;
        if add {
            add_24(&mut w, y);
        } else {
            sub_24(&mut w, y);
        }
        w
    }
}

/// A sequence whose entry `j` is entry `j % w` of `t` repeats `t` in every
/// slot of width `w`.
proof fn lemma_repeated(s: Seq<u128>, t: Seq<u128>, w: int, slots: int)
    requires
        w >= 1,
        t.len() == w,
        slots >= 0,
        s.len() == slots * w,
        forall|j: int| 0 <= j < s.len() ==> #[trigger] s[j] == t[j % w],
    ensures
        forall|d: int| 0 <= d < slots ==> #[trigger] s.subrange(d * w, (d + 1) * w) == t,
{
    assert forall|d: int| 0 <= d < slots implies #[trigger] s.subrange(d * w, (d + 1) * w) == t by {
        lemma_slot_range(d, slots, w);
        assert forall|x: int| 0 <= x < w implies #[trigger] s.subrange(d * w, (d + 1) * w)[x] == t[x] by {
            vstd::arithmetic::div_mod::lemma_fundamental_div_mod_converse(d * w + x, w, d, x);
        }
        assert(s.subrange(d * w, (d + 1) * w) =~= t);
    }
}

/// Sparse set of packed cube states.
pub struct CubeArena {
    orbits: Vec<u128>,
    sparse: Vec<u32>,
    dense_id: Vec<u32>,
    n_orbits: usize,
    n: usize,
}

/// The words of one stored state, for writing in place.
#[derive(Debug)]
pub struct CubeStateMut<'a> {
    pub orbits: &'a mut [u128],
}

/// The words of one stored state.
#[derive(Debug, Clone, Copy)]
pub struct CubeStateRef<'a> {
    pub orbits: &'a [u128],
}

impl CubeArena {
    /// The dimension.
    pub closed spec fn spec_n(&self) -> nat {
        self.n as nat
    }

    /// The number of words of each state.
    pub closed spec fn spec_n_orbits(&self) -> nat {
        self.n_orbits as nat
    }

    /// One more than the largest id that can be stored.
    pub closed spec fn capacity(&self) -> nat {
        self.sparse@.len()
    }

    /// The number of stored states.
    pub closed spec fn count(&self) -> nat {
        self.dense_id@.len()
    }

    /// A state is stored for `id`.
    pub closed spec fn has(&self, id: int) -> bool {
        &&& 0 <= id < self.sparse@.len()
        &&& (self.sparse@[id] as int) < self.dense_id@.len()
        &&& self.dense_id@[self.sparse@[id] as int] == id
    }

    /// The words stored for `id`.
    pub closed spec fn state(&self, id: int) -> Seq<u128> {
        let d = self.sparse@[id] as int;
        let w = self.n_orbits as int;
        self.orbits@.subrange(d * w, (d + 1) * w)
    }

    /// The dense and sparse indexes point at each other, and there are
    /// words for as many states as ids.
    pub closed spec fn wf(&self) -> bool {
        &&& 2 <= self.n
        &&& self.n_orbits == state_len(self.n as nat)
        &&& self.orbits@.len() == self.sparse@.len() * self.n_orbits
        &&& self.dense_id@.len() <= self.sparse@.len()
        &&& self.sparse@.len() <= u32::MAX
        &&& forall|d: int|
            0 <= d < self.dense_id@.len() ==> (#[trigger] self.dense_id@[d] as int) < self.sparse@.len()
                && self.sparse@[self.dense_id@[d] as int] == d
    }

    /// A well-formed arena has states of at least one word, one for each
    /// stored id, and room for no more states than ids.
    pub proof fn lemma_wf(&self)
        requires
            self.wf(),
        ensures
            self.spec_n_orbits() >= 1,
            self.spec_n_orbits() == state_len(self.spec_n()),
            self.count() <= self.capacity(),
            forall|id: int| #[trigger] self.has(id) ==> self.state(id).len() == self.spec_n_orbits(),
    {
        lemma_state_len(self.n as nat);
        assert forall|id: int| #[trigger] self.has(id) implies self.state(id).len() == self.spec_n_orbits() by {
            let d = self.sparse@[id] as int;
            lemma_slot_range(d, self.sparse@.len() as int, self.n_orbits as int);
        }
    }

    /// The number of words of each state.
    pub fn n_orbits(&self) -> (r: usize)
        ensures
            r == self.spec_n_orbits(),
    {
        self.n_orbits
    }

    /// The dimension.
    pub fn n(&self) -> (r: usize)
        ensures
            r == self.spec_n(),
    {
        self.n
    }

    /// An arena holding the solved state for each id `0 .. max_ids`, every
    /// id at the dense index equal to it.
    pub fn zeros(n: usize, max_ids: usize) -> (r: Self)
        requires
            n > 1,
            max_ids > 1,
            n * n + 9 <= usize::MAX,
            max_ids * state_len(n as nat) <= usize::MAX,
            max_ids <= u32::MAX,
        ensures
            r.wf(),
            r.spec_n() == n,
            r.capacity() == max_ids,
            r.count() == max_ids,
            forall|id: int| 0 <= id < max_ids ==> #[trigger] r.has(id) && r.state(id) == solved_state(n as nat),
            forall|id: int| #[trigger] r.has(id) ==> 0 <= id < max_ids,
    {
        assert(n * n >= 2 * n) by (nonlinear_arith)
            requires
                n > 1,
        ;
        proof {
            lemma_state_len(n as nat);
        }
        let dim_mod_2 = n % 2;
        let tmp1 = (n - 2 - dim_mod_2) / 2;
        let n_orbits = (n * n + 5 * dim_mod_2 - 2 * n + 4) / 4;
        let ghost solved = solved_state(n as nat);
        let mut template: Vec<u128> = Vec::new();
        template.push(ID_CORNER);
        if dim_mod_2 == 1 {
            template.push(ID_EDGE);
            template.push(ID_CENTER);
        }
        assert(tmp1 * tmp1 <= n * n) by (nonlinear_arith)
            requires
                2 * tmp1 <= n,
        ;
        let pieces = tmp1 * tmp1 + tmp1 + tmp1 * dim_mod_2;
        let mut k: usize = 0;
        while k < pieces
            invariant
                k <= pieces,
                pieces + 1 + 2 * dim_mod_2 == n_orbits,
                solved == solved_state(n as nat),
                n_orbits == solved.len(),
                dim_mod_2 == n % 2,
                template@.len() == 1 + 2 * dim_mod_2 + k,
                forall|j: int| 0 <= j < template@.len() ==> #[trigger] template@[j] == solved[j],
            decreases pieces - k,
        {
            template.push(ID_24);
            assert(template@[template@.len() - 1] == solved[template@.len() - 1]);
            k = k + 1;
        }
        assert(template@ =~= solved);
        let mut orbits: Vec<u128> = Vec::new();
        let mut id: usize = 0;
        while id < max_ids
            invariant
                id <= max_ids,
                n_orbits >= 1,
                template@ == solved,
                solved == solved_state(n as nat),
                n_orbits == solved.len(),
                max_ids * n_orbits <= usize::MAX,
                orbits@.len() == id * n_orbits,
                forall|j: int| 0 <= j < orbits@.len() ==> #[trigger] orbits@[j] == solved[j % (n_orbits as int)],
            decreases max_ids - id,
        {
            proof {
                lemma_slot_range(id as int, max_ids as int, n_orbits as int);
            }
            let mut x: usize = 0;
            while x < n_orbits
                invariant
                    id < max_ids,
                    x <= n_orbits,
                    n_orbits >= 1,
                    template@ == solved,
                    n_orbits == solved.len(),
                    id * n_orbits + n_orbits <= max_ids * n_orbits,
                    max_ids * n_orbits <= usize::MAX,
                    orbits@.len() == id * n_orbits + x,
                    forall|j: int| 0 <= j < orbits@.len() ==> #[trigger] orbits@[j] == solved[j % (n_orbits as int)],
                decreases n_orbits - x,
            {
                proof {
                    vstd::arithmetic::div_mod::lemma_fundamental_div_mod_converse(
                        id * n_orbits + x,
                        n_orbits as int,
                        id as int,
                        x as int,
                    );
                }
                orbits.push(template[x]);
                x = x + 1;
            }
            id = id + 1;
        }
        let mut sparse: Vec<u32> = Vec::new();
        let mut dense_id: Vec<u32> = Vec::new();
        let mut k: usize = 0;
        while k < max_ids
            invariant
                k <= max_ids,
                max_ids <= u32::MAX,
                sparse@.len() == k,
                dense_id@.len() == k,
                forall|j: int| 0 <= j < k ==> #[trigger] sparse@[j] == j,
                forall|j: int| 0 <= j < k ==> #[trigger] dense_id@[j] == j,
            decreases max_ids - k,
        {
            sparse.push(k as u32);
            dense_id.push(k as u32);
            k = k + 1;
        }
        proof {
            lemma_repeated(orbits@, solved, n_orbits as int, max_ids as int);
        }
        let r = CubeArena { orbits, sparse, dense_id, n_orbits, n };
        proof {
            assert forall|d: int| 0 <= d < r.dense_id@.len() implies (#[trigger] r.dense_id@[d] as int) < r.sparse@.len()
                && r.sparse@[r.dense_id@[d] as int] == d by {
                assert(r.dense_id@[d] == d);
            }
            assert forall|id: int| 0 <= id < max_ids implies #[trigger] r.has(id) && r.state(id) == solved_state(n as nat) by {
                assert(r.sparse@[id] == id);
                assert(r.dense_id@[id] == id);
            }
        }
        r
    }

    /// Whether a state is stored for `id`.
    pub fn contains(&self, id: usize) -> (r: bool)
        requires
            self.wf(),
        ensures
            r == self.has(id as int),
    {
        if id >= self.sparse.len() {
            return false;
        }
        let dense_index = self.sparse[id] as usize;
        dense_index < self.dense_id.len() && self.dense_id[dense_index] == id as u32
    }

    /// The state stored for `id`.
    pub fn get(&self, id: usize) -> (r: CubeStateRef<'_>)
        requires
            self.wf(),
            self.has(id as int),
        ensures
            r.orbits@ == self.state(id as int),
    {
        let n_orbits = self.n_orbits;
        let dense_index = self.sparse[id] as usize;
        proof {
            lemma_slot_range(dense_index as int, self.sparse@.len() as int, n_orbits as int);
        }
        let total = self.orbits.len();
        assert(dense_index * n_orbits + n_orbits <= total);
        let start = dense_index * n_orbits;
        let end = start + n_orbits;
        let s = self.orbits.as_slice();
        CubeStateRef { orbits: &s[start..end] }
    }

    /// An id below the capacity that has no state leaves room for one more.
    proof fn lemma_room(&self, id: int)
        requires
            self.wf(),
            0 <= id < self.capacity(),
            !self.has(id),
        ensures
            self.count() < self.capacity(),
    {
        let cap = self.sparse@.len() as int;
        if self.dense_id@.len() == cap {
            let f = |d: int| self.dense_id@[d] as int;
            assert forall|i: int, j: int| 0 <= i < cap && 0 <= j < cap && i != j implies #[trigger] f(i) != #[trigger] f(j) by {
                assert(self.sparse@[self.dense_id@[i] as int] == i);
                assert(self.sparse@[self.dense_id@[j] as int] == j);
            }
            lemma_onto(f, cap);
            assert(reached(f, cap, id));
            let d = choose|d: int| 0 <= d < cap && #[trigger] f(d) == id;
            assert(self.sparse@[self.dense_id@[d] as int] == d);
        }
    }

    /// Stores `state` for `id`, after the states already stored.
    pub fn insert(&mut self, id: usize, state: &[u128])
        requires
            old(self).wf(),
            id < old(self).capacity(),
            !old(self).has(id as int),
            state@.len() == old(self).spec_n_orbits(),
        ensures
            final(self).wf(),
            final(self).spec_n() == old(self).spec_n(),
            final(self).spec_n_orbits() == old(self).spec_n_orbits(),
            final(self).capacity() == old(self).capacity(),
            final(self).count() == old(self).count() + 1,
            final(self).has(id as int),
            final(self).state(id as int) == state@,
            forall|j: int| j != id ==> #[trigger] final(self).has(j) == old(self).has(j),
            forall|j: int| j != id && old(self).has(j) ==> #[trigger] final(self).state(j) == old(self).state(j),
    {
        proof {
            self.lemma_room(id as int);
            self.lemma_wf();
        }
        let ghost old_self = *self;
        let ghost cap = self.sparse@.len() as int;
        let dense_id = self.dense_id.len();
        let n_orbits = self.n_orbits;
        proof {
            lemma_slot_range(dense_id as int, cap, n_orbits as int);
        }
        let total = self.orbits.len();
        assert(dense_id * n_orbits + n_orbits <= total);
        let start = dense_id * n_orbits;
        self.dense_id.push(id as u32);
        self.sparse.set(id, dense_id as u32);
        let ghost sp = self.sparse@;
        let ghost dn = self.dense_id@;
        let mut k: usize = 0;
        while k < n_orbits
            invariant
                k <= n_orbits,
                n_orbits == self.n_orbits,
                n_orbits == old_self.n_orbits,
                self.n == old_self.n,
                self.sparse@ == sp,
                self.dense_id@ == dn,
                state@.len() == n_orbits,
                self.orbits@.len() == old_self.orbits@.len(),
                self.orbits@.len() == total,
                start + n_orbits <= self.orbits@.len(),
                forall|p: int|
                    0 <= p < self.orbits@.len() ==> #[trigger] self.orbits@[p] == (if start <= p < start + k {
                        state@[p - start]
                    } else {
                        old_self.orbits@[p]
                    }),
            decreases n_orbits - k,
        {
            self.orbits.set(start + k, state[k]);
            k = k + 1;
        }
        proof {
            assert forall|d: int| 0 <= d < self.dense_id@.len() implies (#[trigger] self.dense_id@[d] as int)
                < self.sparse@.len() && self.sparse@[self.dense_id@[d] as int] == d by {
                if d < dense_id {
                    assert(old_self.dense_id@[d] != id) by {
                        if old_self.dense_id@[d] == id {
                            assert(old_self.sparse@[id as int] == d);
                        }
                    }
                }
            }
            assert(self.state(id as int) =~= state@);
            assert forall|j: int| j != id implies #[trigger] self.has(j) == old_self.has(j) by {}
            assert forall|j: int| j != id && old_self.has(j) implies #[trigger] self.state(j) == old_self.state(j) by {
                let dj = old_self.sparse@[j] as int;
                lemma_slot_range(dj, cap, n_orbits as int);
                assert forall|x: int| 0 <= x < n_orbits implies #[trigger] self.state(j)[x] == old_self.state(j)[x] by {
                    lemma_slot_disjoint(dj, dense_id as int, x, n_orbits as int);
                }
                assert(self.state(j) =~= old_self.state(j));
            }
        }
    }

    /// Removes the state of `id`; the last stored state moves into its place.
    pub fn remove(&mut self, id: usize)
        requires
            old(self).wf(),
            old(self).has(id as int),
        ensures
            final(self).wf(),
            final(self).spec_n() == old(self).spec_n(),
            final(self).spec_n_orbits() == old(self).spec_n_orbits(),
            final(self).capacity() == old(self).capacity(),
            final(self).count() == old(self).count() - 1,
            !final(self).has(id as int),
            forall|j: int| j != id ==> #[trigger] final(self).has(j) == old(self).has(j),
            forall|j: int| j != id && old(self).has(j) ==> #[trigger] final(self).state(j) == old(self).state(j),
    {
        proof {
            self.lemma_wf();
        }
        let ghost old_self = *self;
        let ghost cap = self.sparse@.len() as int;
        let dense_index = self.sparse[id] as usize;
        let last_index = self.dense_id.len() - 1;
        let a_id = self.dense_id[dense_index];
        let b_id = self.dense_id[last_index];
        self.dense_id.set(dense_index, b_id);
        self.dense_id.set(last_index, a_id);
        let swapped_id = self.dense_id[dense_index] as usize;
        self.sparse.set(swapped_id, dense_index as u32);
        self.dense_id.pop();
        let n = self.n_orbits;
        proof {
            lemma_slot_range(dense_index as int, cap, n as int);
            lemma_slot_range(last_index as int, cap, n as int);
            if dense_index < last_index {
                assert(dense_index * n + n <= last_index * n) by (nonlinear_arith)
                    requires
                        dense_index + 1 <= last_index,
                ;
            }
        }
        let total = self.orbits.len();
        assert(last_index * n + n <= total);
        let a = dense_index * n;
        let b = last_index * n;
        let ghost sp = self.sparse@;
        let ghost dn = self.dense_id@;
        let ghost od = old_self.orbits@;
        let mut k: usize = 0;
        while k < n
            invariant
                k <= n,
                n == self.n_orbits,
                n == old_self.n_orbits,
                self.n == old_self.n,
                self.sparse@ == sp,
                self.dense_id@ == dn,
                self.orbits@.len() == od.len(),
                od.len() == total,
                a + n <= od.len(),
                b + n <= od.len(),
                a == b || a + n <= b,
                forall|p: int|
                    0 <= p < od.len() ==> #[trigger] self.orbits@[p] == (if a <= p < a + k {
                        od[p - a + b]
                    } else if b <= p < b + k {
                        od[p - b + a]
                    } else {
                        od[p]
                    }),
            decreases n - k,
        {
            let x = self.orbits[a + k];
            let y = self.orbits[b + k];
            self.orbits.set(a + k, y);
            self.orbits.set(b + k, x);
            k = k + 1;
        }
        proof {
            let odn = old_self.dense_id@;
            let osp = old_self.sparse@;
            assert(a_id == id);
            assert(osp[b_id as int] == last_index);
            assert forall|d: int| 0 <= d < self.dense_id@.len() implies (#[trigger] self.dense_id@[d] as int)
                < self.sparse@.len() && self.sparse@[self.dense_id@[d] as int] == d by {
                if d != dense_index {
                    assert(self.dense_id@[d] == odn[d]);
                    assert(osp[odn[d] as int] == d);
                    assert(odn[d] != b_id);
                }
            }
            assert forall|j: int| j != id implies #[trigger] self.has(j) == old_self.has(j) by {
                if j != b_id && 0 <= j < cap {
                    assert(self.sparse@[j] == osp[j]);
                    if old_self.has(j) {
                        assert(osp[j] != last_index);
                        assert(osp[j] != dense_index);
                    }
                    if self.has(j) {
                        assert(osp[j] != dense_index);
                    }
                }
            }
            assert forall|j: int| j != id && old_self.has(j) implies #[trigger] self.state(j) == old_self.state(j) by {
                let dj = osp[j] as int;
                lemma_slot_range(dj, cap, n as int);
                if j == b_id {
                    assert forall|x: int| 0 <= x < n implies #[trigger] self.state(j)[x] == old_self.state(j)[x] by {}
                } else {
                    assert(dj != dense_index && dj != last_index);
                    assert forall|x: int| 0 <= x < n implies #[trigger] self.state(j)[x] == old_self.state(j)[x] by {
                        lemma_slot_disjoint(dj, dense_index as int, x, n as int);
                        lemma_slot_disjoint(dj, last_index as int, x, n as int);
                        lemma_slot_disjoint(dense_index as int, dj, 0, n as int);
                    }
                }
                assert(self.state(j) =~= old_self.state(j));
            }
        }
    }

    /// The state stored for `id`, for writing in place: once the words
    /// written back have the length of a state, they are the state of `id`
    /// and the other states are as they were.
    pub fn get_mut(&mut self, id: usize) -> (r: CubeStateMut<'_>)
        requires
            old(self).wf(),
            old(self).has(id as int),
        ensures
            r.orbits@ == old(self).state(id as int),
            final(self).spec_n() == old(self).spec_n(),
            final(self).spec_n_orbits() == old(self).spec_n_orbits(),
            final(self).capacity() == old(self).capacity(),
            final(self).count() == old(self).count(),
            forall|j: int| #[trigger] final(self).has(j) == old(self).has(j),
            final(r.orbits)@.len() == old(self).spec_n_orbits() ==> final(self).wf(),
            final(r.orbits)@.len() == old(self).spec_n_orbits() ==> final(self).state(id as int) == final(r.orbits)@,
            final(r.orbits)@.len() == old(self).spec_n_orbits() ==> forall|j: int|
                j != id && old(self).has(j) ==> #[trigger] final(self).state(j) == old(self).state(j),
    {
        proof {
            self.lemma_wf();
        }
        let ghost cap = self.sparse@.len() as int;
        let n_orbits = self.n_orbits;
        let dense_index = self.sparse[id] as usize;
        proof {
            lemma_slot_range(dense_index as int, cap, n_orbits as int);
        }
        let total = self.orbits.len();
        assert(dense_index * n_orbits + n_orbits <= total);
        let start = dense_index * n_orbits;
        let ghost d = self.orbits@;
        proof {
            lemma_splice(d, dense_index as int, n_orbits as int, cap);
        }
        let s = self.orbits.as_mut_slice();
        let (head, rest) = s.split_at_mut(start);
        let (mid, tail) = rest.split_at_mut(n_orbits);
        proof {
            assert(has_resolved(head));
            assert(has_resolved(tail));
            assert(head@ =~= d.subrange(0, start as int));
            assert(tail@ =~= d.subrange(start + n_orbits, total as int));
            assert(mid@ =~= d.subrange(start as int, start + n_orbits));
        }
        CubeStateMut { orbits: mid }
    }

    /// Combines the state of `a` with that of `b` word by word, in place:
    /// added when `add`, else subtracted.
    fn combine(&mut self, a: usize, b: usize, add: bool)
        requires
            old(self).wf(),
            old(self).has(a as int),
            old(self).has(b as int),
            state_positions(old(self).spec_n(), old(self).state(b as int)),
        ensures
            final(self).wf(),
            final(self).spec_n() == old(self).spec_n(),
            final(self).spec_n_orbits() == old(self).spec_n_orbits(),
            final(self).capacity() == old(self).capacity(),
            final(self).count() == old(self).count(),
            forall|j: int| #[trigger] final(self).has(j) == old(self).has(j),
            final(self).state(a as int) == (if add {
                state_add(old(self).spec_n(), old(self).state(a as int), old(self).state(b as int))
            } else {
                state_sub(old(self).spec_n(), old(self).state(a as int), old(self).state(b as int))
            }),
            forall|j: int| j != a && old(self).has(j) ==> #[trigger] final(self).state(j) == old(self).state(j),
    {
        proof {
            self.lemma_wf();
        }
        let ghost old_self = *self;
        let ghost od = self.orbits@;
        let ghost cap = self.sparse@.len() as int;
        let n_orbits = self.n_orbits;
        let n = self.n;
        let da = self.sparse[a] as usize;
        let db = self.sparse[b] as usize;
        proof {
            lemma_slot_range(da as int, cap, n_orbits as int);
            lemma_slot_range(db as int, cap, n_orbits as int);
            if da < db {
                assert(da * n_orbits + n_orbits <= db * n_orbits) by (nonlinear_arith)
                    requires
                        da + 1 <= db,
                ;
            } else if db < da {
                assert(db * n_orbits + n_orbits <= da * n_orbits) by (nonlinear_arith)
                    requires
                        db + 1 <= da,
                ;
            }
        }
        let total = self.orbits.len();
        assert(da * n_orbits + n_orbits <= total);
        assert(db * n_orbits + n_orbits <= total);
        let a_start = da * n_orbits;
        let b_start = db * n_orbits;
        let ghost sa = old_self.state(a as int);
        let ghost sb = old_self.state(b as int);
        let ghost target = if add {
            state_add(n as nat, sa, sb)
        } else {
            state_sub(n as nat, sa, sb)
        };
        let ghost sp = self.sparse@;
        let ghost dn = self.dense_id@;
        let mut i: usize = 0;
        while i < n_orbits
            invariant
                i <= n_orbits,
                n_orbits == self.n_orbits,
                n_orbits == old_self.n_orbits,
                n == self.n,
                n == old_self.n,
                self.sparse@ == sp,
                self.dense_id@ == dn,
                self.orbits@.len() == total,
                od.len() == total,
                a_start + n_orbits <= total,
                b_start + n_orbits <= total,
                a_start == b_start || a_start + n_orbits <= b_start || b_start + n_orbits <= a_start,
                sa == od.subrange(a_start as int, a_start + n_orbits),
                sb == od.subrange(b_start as int, b_start + n_orbits),
                target.len() == n_orbits,
                target == (if add {
                    state_add(n as nat, sa, sb)
                } else {
                    state_sub(n as nat, sa, sb)
                }),
                state_positions(n as nat, sb),
                forall|p: int|
                    0 <= p < total ==> #[trigger] self.orbits@[p] == (if a_start <= p < a_start + i {
                        target[p - a_start]
                    } else {
                        od[p]
                    }),
            decreases n_orbits - i,
        {
            let x = self.orbits[a_start + i];
            let y = self.orbits[b_start + i];
            assert(x == sa[i as int]);
            assert(y == sb[i as int]);
            assert(word_positions_at(n as nat, i as int, sb[i as int]));
            let w = combine_word(n, i, x, y, add);
            self.orbits.set(a_start + i, w);
            i = i + 1;
        }
        proof {
            assert(self.state(a as int) =~= target);
            assert forall|j: int| j != a && old_self.has(j) implies #[trigger] self.state(j) == old_self.state(j) by {
                let dj = sp[j] as int;
                assert(dj != da);
                lemma_slot_range(dj, cap, n_orbits as int);
                assert forall|x: int| 0 <= x < n_orbits implies #[trigger] self.state(j)[x] == old_self.state(j)[x] by {
                    lemma_slot_disjoint(dj, da as int, x, n_orbits as int);
                }
                assert(self.state(j) =~= old_self.state(j));
            }
        }
    }

    /// Composes the state of `a` with that of `b`, word by word, in place:
    /// `a` becomes `a + b`.
    pub fn add_assign(&mut self, a: usize, b: usize)
        requires
            old(self).wf(),
            old(self).has(a as int),
            old(self).has(b as int),
            old(self).spec_n() != 2,
            state_positions(old(self).spec_n(), old(self).state(b as int)),
        ensures
            final(self).wf(),
            final(self).spec_n() == old(self).spec_n(),
            final(self).spec_n_orbits() == old(self).spec_n_orbits(),
            final(self).capacity() == old(self).capacity(),
            final(self).count() == old(self).count(),
            forall|j: int| #[trigger] final(self).has(j) == old(self).has(j),
            final(self).state(a as int) == state_add(
                old(self).spec_n(),
                old(self).state(a as int),
                old(self).state(b as int),
            ),
            forall|j: int| j != a && old(self).has(j) ==> #[trigger] final(self).state(j) == old(self).state(j),
    {
        self.combine(a, b, true);
    }

    /// Takes the state of `b` away from that of `a`, word by word, in
    /// place: `a` becomes `a - b`.
    pub fn sub_assign(&mut self, a: usize, b: usize)
        requires
            old(self).wf(),
            old(self).has(a as int),
            old(self).has(b as int),
            state_positions(old(self).spec_n(), old(self).state(b as int)),
        ensures
            final(self).wf(),
            final(self).spec_n() == old(self).spec_n(),
            final(self).spec_n_orbits() == old(self).spec_n_orbits(),
            final(self).capacity() == old(self).capacity(),
            final(self).count() == old(self).count(),
            forall|j: int| #[trigger] final(self).has(j) == old(self).has(j),
            final(self).state(a as int) == state_sub(
                old(self).spec_n(),
                old(self).state(a as int),
                old(self).state(b as int),
            ),
            forall|j: int| j != a && old(self).has(j) ==> #[trigger] final(self).state(j) == old(self).state(j),
    {
        self.combine(a, b, false);
    }

    /// An empty arena with room for the ids `0 .. max_ids`, its words all zero.
    pub fn with_capacity(n: usize, max_ids: usize) -> (r: Self)
        requires
            n > 1,
            max_ids > 1,
            n * n + 9 <= usize::MAX,
            max_ids * state_len(n as nat) <= usize::MAX,
            max_ids <= u32::MAX,
        ensures
            r.wf(),
            r.spec_n() == n,
            r.capacity() == max_ids,
            r.count() == 0,
            forall|id: int| !(#[trigger] r.has(id)),
    {
        assert(n * n >= 2 * n) by (nonlinear_arith)
            requires
                n > 1,
        ;
        let n_orbits = (n * n + 5 * (n % 2) - 2 * n + 4) / 4;
        let total = max_ids * n_orbits;
        let mut orbits: Vec<u128> = Vec::new();
        let mut k: usize = 0;
        while k < total
            invariant
                k <= total,
                orbits@.len() == k,
            decreases total - k,
        {
            orbits.push(0);
            k = k + 1;
        }
        let mut sparse: Vec<u32> = Vec::new();
        let mut k: usize = 0;
        while k < max_ids
            invariant
                k <= max_ids,
                sparse@.len() == k,
            decreases max_ids - k,
        {
            sparse.push(0);
            k = k + 1;
        }
        let dense_id: Vec<u32> = Vec::with_capacity(max_ids);
        CubeArena { orbits, sparse, dense_id, n_orbits, n }
    }
}

impl<'a> CubeStateMut<'a> {
    /// Writes the solved state of a cube of dimension `n` over the words.
    pub fn zero(&mut self, n: usize)
        requires
            n > 1,
            n * n + 9 <= usize::MAX,
            old(self).orbits@.len() == state_len(n as nat),
        ensures
            final(self).orbits@ == solved_state(n as nat),
    {
        proof {
            lemma_state_len(n as nat);
        }
        assert(n * n >= 2 * n) by (nonlinear_arith)
            requires
                n > 1,
        ;
        let dim_mod_2 = n % 2;
        let len = (n * n + 5 * dim_mod_2 - 2 * n + 4) / 4;
        let ghost solved = solved_state(n as nat);
        self.orbits[0] = ID_CORNER;
        let mut idx: usize = 1;
        if dim_mod_2 == 1 {
            self.orbits[1] = ID_EDGE;
            self.orbits[2] = ID_CENTER;
            idx = 3;
        }
        while idx < len
            invariant
                1 + 2 * dim_mod_2 <= idx <= len,
                dim_mod_2 == n % 2,
                len == self.orbits@.len(),
                solved == solved_state(n as nat),
                len == solved.len(),
                forall|j: int| 0 <= j < idx ==> #[trigger] self.orbits@[j] == solved[j],
            decreases len - idx,
        {
            self.orbits[idx] = ID_24;
            idx = idx + 1;
        }
        assert(self.orbits@ =~= solved);
    }
}

} // verus!
