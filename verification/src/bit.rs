//! Fixed-width fields inside an integer word, with a three-bit kind tag in
//! the top bits: 24 five-bit fields in a `u128` (tag at bit 125) and 12
//! two-bit fields in a `u32` (tag at bit 29).  A `u32` is addressed with the
//! indexes of a `u128`: the indexes `12 .. 24` all name field 0, and
//! setting one of them replaces the whole word.
use vstd::prelude::*;

verus! {

/// The five-bit field `i` of `w`.
pub open spec fn field128(w: u128, i: int) -> u128 {
    (w >> ((5 * i) as u128)) & 31
}

/// `w` with field `i` cleared and `v` or-ed in at its place.
pub open spec fn put128(w: u128, i: int, v: u8) -> u128 {
    (w & !(31u128 << ((5 * i) as u128))) | ((v as u128) << ((5 * i) as u128))
}

/// The two-bit field `i` of `w`.
pub open spec fn field32(w: u32, i: int) -> u32 {
    (w >> ((2 * i) as u32)) & 3
}

/// `w` with field `i` cleared and `v` or-ed in at its place.
pub open spec fn put32(w: u32, i: int, v: u8) -> u32 {
    (w & !(3u32 << ((2 * i) as u32))) | ((v as u32) << ((2 * i) as u32))
}

/// Read and write the fields and the kind tag of a packed word.
pub trait Bit: Sized {
    /// The number of field indexes.
    spec fn spec_fields() -> nat;

    /// The value of field `i`.
    spec fn spec_get(&self, i: int) -> u8;

    /// The word with field `i` set to `v`.
    spec fn spec_set(&self, i: int, v: u8) -> Self;

    /// The kind tag.
    spec fn spec_kind(&self) -> usize;

    /// The word with its kind tag set to `kind`.
    spec fn spec_with_kind(&self, kind: usize) -> Self;

    /// Sets field `i` to `v`.
    fn set(&mut self, i: usize, v: u8)
        requires
            i < Self::spec_fields(),
        ensures
            *final(self) == old(self).spec_set(i as int, v),
    ;

    /// Field `i`.
    fn get(&self, i: usize) -> (r: u8)
        requires
            i < Self::spec_fields(),
        ensures
            r == self.spec_get(i as int),
    ;

    /// The kind tag.
    fn get_kind(&self) -> (r: usize)
        ensures
            r == self.spec_kind(),
    ;

    /// Sets the kind tag to `kind`, one of the six kinds.
    fn set_kind(&mut self, kind: usize)
        requires
            kind < 6,
        ensures
            *final(self) == old(self).spec_with_kind(kind),
    ;
}

impl Bit for u128 {
    open spec fn spec_fields() -> nat {
        24
    }

    open spec fn spec_get(&self, i: int) -> u8 {
        field128(*self, i) as u8
    }

    open spec fn spec_set(&self, i: int, v: u8) -> u128 {
        put128(*self, i, v)
    }

    open spec fn spec_kind(&self) -> usize {
        (*self >> 125u128) as usize
    }

    open spec fn spec_with_kind(&self, kind: usize) -> u128 {
        (*self & !(7u128 << 125u128)) | ((kind as u128) << 125u128)
    }

    fn set(&mut self, i: usize, v: u8) {
        let shift = (i * 5) as u128;
        *self = *self & !(31u128 << shift);
        *self = *self | ((v as u128) << shift);
    }

    fn get(&self, i: usize) -> (r: u8) {
        ((*self >> ((i * 5) as u128)) & 31) as u8
    }

    fn get_kind(&self) -> (r: usize) {
        (*self >> 125u128) as usize
    }

    fn set_kind(&mut self, kind: usize) {
        *self = (*self & !(7u128 << 125u128)) | ((kind as u128) << 125u128);
    }
}

impl Bit for u32 {
    open spec fn spec_fields() -> nat {
        24
    }

    open spec fn spec_get(&self, i: int) -> u8 {
        if i < 12 {
            field32(*self, i) as u8
        } else {
            field32(*self, 0) as u8
        }
    }

    open spec fn spec_set(&self, i: int, v: u8) -> u32 {
        if i < 12 {
            put32(*self, i, v)
        } else {
            v as u32
        }
    }

    open spec fn spec_kind(&self) -> usize {
        (*self >> 29u32) as usize
    }

    open spec fn spec_with_kind(&self, kind: usize) -> u32 {
        (*self & !(7u32 << 29u32)) | ((kind as u32) << 29u32)
    }

    fn set(&mut self, i: usize, v: u8) {
        if i < 12 {
            let shift = (i * 2) as u32;
            *self = *self & !(3u32 << shift);
            *self = *self | ((v as u32) << shift);
        } else {
            *self = v as u32;
        }
    }

    fn get(&self, i: usize) -> (r: u8) {
        if i < 12 {
            ((*self >> ((i * 2) as u32)) & 3) as u8
        } else {
            ((*self >> 0u32) & 3) as u8
        }
    }

    fn get_kind(&self) -> (r: usize) {
        (*self >> 29u32) as usize
    }

    fn set_kind(&mut self, kind: usize) {
        *self = (*self & !(7u32 << 29u32)) | ((kind as u32) << 29u32);
    }
}

/// Writing a value that fits a field of a `u128` and reading it back gives
/// the value, and leaves every other field as it was.
pub proof fn law_get_set_128(w: u128, i: nat, j: nat, v: u8)
    requires
        i < 24,
        j < 24,
        v < 32,
    ensures
        field128(put128(w, i as int, v), i as int) == v,
        i != j ==> field128(put128(w, i as int, v), j as int) == field128(w, j as int),
{
    let s = (5 * i) as u128;
    let t = (5 * j) as u128;
    let vv = v as u128;
    let m = w & !(31u128 << s);
    let x = m | (vv << s);
    assert((x >> s) & 31 == vv && (s != t ==> (x >> t) & 31 == (w >> t) & 31)) by (bit_vector)
        requires
            s <= 120,
            t <= 125,
            s % 5 == 0,
            t % 5 == 0,
            vv < 32,
            m == w & !(31u128 << s),
            x == m | (vv << s),
    ;
}

/// Writing a value that fits a field of a `u32` and reading it back gives
/// the value, and leaves every other field as it was.
pub proof fn law_get_set_32(w: u32, i: nat, j: nat, v: u8)
    requires
        i < 12,
        j < 12,
        v < 4,
    ensures
        field32(put32(w, i as int, v), i as int) == v,
        i != j ==> field32(put32(w, i as int, v), j as int) == field32(w, j as int),
{
    let s = (2 * i) as u32;
    let t = (2 * j) as u32;
    let vv = v as u32;
    let m = w & !(3u32 << s);
    let x = m | (vv << s);
    assert((x >> s) & 3 == vv && (s != t ==> (x >> t) & 3 == (w >> t) & 3)) by (bit_vector)
        requires
            s <= 30,
            t <= 30,
            s % 2 == 0,
            t % 2 == 0,
            vv < 4,
            m == w & !(3u32 << s),
            x == m | (vv << s),
    ;
}

} // verus!
