//! The binary form of a cube state: the magic `STATE`, the dimension and
//! the number of permutation words as eight little-endian bytes each, every
//! permutation word as sixteen little-endian bytes, then the two
//! orientation words as four little-endian bytes each.
use vstd::prelude::*;

use crate::layout_format::{le_bytes, le_value, lemma_le_roundtrip, push_le, read_le};

verus! {

/// A cube state with its dimension, as plain values.
#[derive(Debug, Clone)]
pub struct StateRecord {
    pub dimension: usize,
    pub perm: Vec<u128>,
    pub ori: [u32; 2],
}

/// Why a binary cube state could not be read.
#[derive(Debug, Clone, Copy, PartialEq, Eq, Structural)]
pub enum StateFormatError {
    /// The bytes end before the record does.
    Truncated,
    /// The bytes do not start with `STATE`.
    InvalidFormat,
}

/// The magic that starts the binary form: the letters of `STATE`.
pub open spec fn state_magic() -> Seq<u8> {
    seq![83u8, 84u8, 65u8, 84u8, 69u8]
}

/// The sixteen little-endian bytes of `x`.
pub open spec fn word_bytes(x: u128) -> Seq<u8> {
    le_bytes(x as u64) + le_bytes((x >> 64u128) as u64)
}

/// The bytes of the words of `v`, one after the other.
pub open spec fn words_bytes(v: Seq<u128>) -> Seq<u8>
    decreases v.len(),
{
    if v.len() == 0 {
        Seq::empty()
    } else {
        words_bytes(v.drop_last()) + word_bytes(v.last())
    }
}

/// The four little-endian bytes of `x`.
pub open spec fn ori_bytes(x: u32) -> Seq<u8> {
    Seq::new(4, |k: int| ((x >> ((8 * k) as u32)) & 0xff) as u8)
}

/// The binary form of `r`.
pub open spec fn state_encoded(r: StateRecord) -> Seq<u8> {
    state_magic() + le_bytes(r.dimension as u64) + le_bytes(r.perm@.len() as u64) + words_bytes(r.perm@)
        + ori_bytes(r.ori@[0]) + ori_bytes(r.ori@[1])
}

/// The word whose sixteen little-endian bytes are `b[at .. at + 16]`.
pub open spec fn word_value(b: Seq<u8>, at: int) -> u128 {
    (le_value(b, at) as u128) | ((le_value(b, at + 8) as u128) << 64u128)
}

/// The word whose four little-endian bytes are `b[at .. at + 4]`.
pub open spec fn ori_value(b: Seq<u8>, at: int) -> u32 {
    (b[at] as u32) | ((b[at + 1] as u32) << 8u32) | ((b[at + 2] as u32) << 16u32) | ((b[at + 3] as u32)
        << 24u32)
}

/// The length of the binary form that `b` announces: the header, sixteen
/// bytes per announced word, and the two orientation words.
pub open spec fn announced_len(b: Seq<u8>) -> int {
    21 + 16 * le_value(b, 13) + 8
}

/// `r` is the record that the binary form `b` describes (the bytes after
/// the record are ignored).
pub open spec fn state_decodes(b: Seq<u8>, r: StateRecord) -> bool {
    let n = r.perm@.len() as int;
    &&& r.dimension == le_value(b, 5) as usize
    &&& n == le_value(b, 13)
    &&& forall|i: int| 0 <= i < n ==> #[trigger] r.perm@[i] == word_value(b, 21 + 16 * i)
    &&& r.ori@[0] == ori_value(b, 21 + 16 * n)
    &&& r.ori@[1] == ori_value(b, 25 + 16 * n)
}

fn push_word(out: &mut Vec<u8>, x: u128)
    ensures
        final(out)@ == old(out)@ + word_bytes(x),
{
    push_le(out, x as u64);
    push_le(out, (x >> 64u128) as u64);
    assert(final(out)@ =~= old(out)@ + word_bytes(x)) by {
        assert(out@ =~= old(out)@ + le_bytes(x as u64) + le_bytes((x >> 64u128) as u64));
    }
}

fn push_ori(out: &mut Vec<u8>, x: u32)
    ensures
        final(out)@ == old(out)@ + ori_bytes(x),
{
    let ghost start = out@;
    let mut k: u32 = 0;
    while k < 4
        invariant
            k <= 4,
            out@ == start + ori_bytes(x).take(k as int),
        decreases 4 - k,
    {
        out.push(((x >> (8 * k)) & 0xff) as u8);
        k = k + 1;
        assert(out@ =~= start + ori_bytes(x).take(k as int));
    }
    assert(ori_bytes(x).take(4) =~= ori_bytes(x));
}

fn read_word(b: &[u8], at: usize) -> (r: u128)
    requires
        at + 16 <= b@.len(),
    ensures
        r == word_value(b@, at as int),
{
    let _len = b.len();
    (read_le(b, at) as u128) | ((read_le(b, at + 8) as u128) << 64u128)
}

fn read_ori(b: &[u8], at: usize) -> (r: u32)
    requires
        at + 4 <= b@.len(),
    ensures
        r == ori_value(b@, at as int),
{
    (b[at] as u32) | ((b[at + 1] as u32) << 8u32) | ((b[at + 2] as u32) << 16u32) | ((b[at + 3] as u32)
        << 24u32)
}

impl StateRecord {
    /// The binary form of the record.
    pub fn binary(&self) -> (r: Vec<u8>)
        ensures
            r@ == state_encoded(*self),
    {
        let mut out: Vec<u8> = Vec::new();
        out.push(83u8);
        out.push(84u8);
        out.push(65u8);
        out.push(84u8);
        out.push(69u8);
        assert(out@ =~= state_magic());
        push_le(&mut out, self.dimension as u64);
        push_le(&mut out, self.perm.len() as u64);
        let ghost head = out@;
        let mut i: usize = 0;
        while i < self.perm.len()
            invariant
                i <= self.perm@.len(),
                out@ == head + words_bytes(self.perm@.take(i as int)),
            decreases self.perm@.len() - i,
        {
            push_word(&mut out, self.perm[i]);
            assert(self.perm@.take(i as int + 1).drop_last() =~= self.perm@.take(i as int));
            assert(out@ =~= head + words_bytes(self.perm@.take(i as int + 1)));
            i = i + 1;
        }
        assert(self.perm@.take(i as int) =~= self.perm@);
        push_ori(&mut out, self.ori[0]);
        push_ori(&mut out, self.ori[1]);
        out
    }

    /// Reads the record from its binary form `buffer`: `Truncated` when the
    /// bytes end before the magic, before the header or before the words
    /// that the header announces, `InvalidFormat` when they do not start
    /// with `STATE`; the record is unchanged on an error.
    pub fn binary_r(&mut self, buffer: &[u8]) -> (r: Result<(), StateFormatError>)
        ensures
            buffer@.len() < 5 ==> r == Err::<(), StateFormatError>(StateFormatError::Truncated),
            buffer@.len() >= 5 && buffer@.subrange(0, 5) != state_magic() ==> r == Err::<(), StateFormatError>(
                StateFormatError::InvalidFormat,
            ),
            buffer@.len() >= 5 && buffer@.subrange(0, 5) == state_magic() && (buffer@.len() < 21
                || buffer@.len() < announced_len(buffer@)) ==> r == Err::<(), StateFormatError>(
                StateFormatError::Truncated,
            ),
            r is Ok <==> (buffer@.len() >= 21 && buffer@.subrange(0, 5) == state_magic() && buffer@.len()
                >= announced_len(buffer@)),
            r is Ok ==> state_decodes(buffer@, *final(self)),
            r is Err ==> *final(self) == *old(self),
    {
        if buffer.len() < 5 {
            return Err(StateFormatError::Truncated);
        }
        if !(buffer[0] == 83u8 && buffer[1] == 84u8 && buffer[2] == 65u8 && buffer[3] == 84u8
            && buffer[4] == 69u8) {
            proof {
                if buffer@.subrange(0, 5) == state_magic() {
                    assert(buffer@[0] == buffer@.subrange(0, 5)[0]);
                    assert(buffer@[1] == buffer@.subrange(0, 5)[1]);
                    assert(buffer@[2] == buffer@.subrange(0, 5)[2]);
                    assert(buffer@[3] == buffer@.subrange(0, 5)[3]);
                    assert(buffer@[4] == buffer@.subrange(0, 5)[4]);
                }
            }
            return Err(StateFormatError::InvalidFormat);
        }
        assert(buffer@.subrange(0, 5) =~= state_magic());
        if buffer.len() < 21 {
            return Err(StateFormatError::Truncated);
        }
        let count = read_le(buffer, 13);
        let rest = buffer.len() - 21;
        if rest < 8 || count > ((rest - 8) / 16) as u64 {
            proof {
                if rest >= 8 {
                    let c = count as int;
                    let q = (rest - 8) as int;
                    assert(c > q / 16 ==> 16 * c > q) by (nonlinear_arith);
                }
            }
            return Err(StateFormatError::Truncated);
        }
        proof {
            let c = count as int;
            let q = (rest - 8) as int;
            assert(c <= q / 16 ==> 16 * c <= q) by (nonlinear_arith)
                requires
                    q >= 0,
            ;
        }
        let n = count as usize;
        let dimension = read_le(buffer, 5) as usize;
        let mut perm: Vec<u128> = Vec::new();
        let blen = buffer.len();
        let mut i: usize = 0;
        while i < n
            invariant
                i <= n,
                blen == buffer@.len(),
                n == le_value(buffer@, 13),
                21 + 16 * n + 8 <= buffer@.len(),
                perm@.len() == i,
                forall|j: int| 0 <= j < i ==> #[trigger] perm@[j] == word_value(buffer@, 21 + 16 * j),
            decreases n - i,
        {
            perm.push(read_word(buffer, 21 + 16 * i));
            i = i + 1;
        }
        let o0 = read_ori(buffer, 21 + 16 * n);
        let o1 = read_ori(buffer, 25 + 16 * n);
        *self = StateRecord { dimension, perm, ori: [o0, o1] };
        Ok(())
    }
}

/// The bytes of the words of `v`: sixteen per word, word `i` at `16 i`.
proof fn lemma_words_bytes(v: Seq<u128>)
    ensures
        words_bytes(v).len() == 16 * v.len(),
        forall|i: int| 0 <= i < v.len() ==> #[trigger] words_bytes(v).subrange(16 * i, 16 * i + 16) == word_bytes(v[i]),
    decreases v.len(),
{
    if v.len() > 0 {
        let d = v.drop_last();
        lemma_words_bytes(d);
        let b = words_bytes(v);
        assert forall|i: int| 0 <= i < v.len() implies #[trigger] b.subrange(16 * i, 16 * i + 16) == word_bytes(v[i]) by {
            if i < d.len() {
                assert(b.subrange(16 * i, 16 * i + 16) =~= words_bytes(d).subrange(16 * i, 16 * i + 16));
            } else {
                assert(b.subrange(16 * i, 16 * i + 16) =~= word_bytes(v.last()));
            }
        }
    }
}

/// Sixteen little-endian bytes read back give the word.
proof fn lemma_word_roundtrip(b: Seq<u8>, at: int, x: u128)
    requires
        0 <= at,
        at + 16 <= b.len(),
        b.subrange(at, at + 16) == word_bytes(x),
    ensures
        word_value(b, at) == x,
{
    let lo = x as u64;
    let hi = (x >> 64u128) as u64;
    lemma_le_roundtrip(lo);
    lemma_le_roundtrip(hi);
    assert(le_value(b, at) == le_value(le_bytes(lo), 0)) by {
        assert forall|k: int| 0 <= k < 8 implies b[at + k] == #[trigger] le_bytes(lo)[k] by {
            assert(b[at + k] == b.subrange(at, at + 16)[k]);
        }
    }
    assert(le_value(b, at + 8) == le_value(le_bytes(hi), 0)) by {
        assert forall|k: int| 0 <= k < 8 implies b[at + 8 + k] == #[trigger] le_bytes(hi)[k] by {
            assert(b[at + 8 + k] == b.subrange(at, at + 16)[8 + k]);
        }
    }
    assert(((lo as u128) | ((hi as u128) << 64u128)) == x) by (bit_vector)
        requires
            lo == x as u64,
            hi == (x >> 64u128) as u64,
    ;
}

/// Four little-endian bytes read back give the word.
proof fn lemma_ori_roundtrip(b: Seq<u8>, at: int, x: u32)
    requires
        0 <= at,
        at + 4 <= b.len(),
        b.subrange(at, at + 4) == ori_bytes(x),
    ensures
        ori_value(b, at) == x,
{
    let b0 = b[at];
    let b1 = b[at + 1];
    let b2 = b[at + 2];
    let b3 = b[at + 3];
    assert(b0 == b.subrange(at, at + 4)[0]);
    assert(b1 == b.subrange(at, at + 4)[1]);
    assert(b2 == b.subrange(at, at + 4)[2]);
    assert(b3 == b.subrange(at, at + 4)[3]);
    assert((b0 as u32) | ((b1 as u32) << 8u32) | ((b2 as u32) << 16u32) | ((b3 as u32) << 24u32) == x)
        by (bit_vector)
        requires
            b0 == ((x >> 0u32) & 0xff) as u8,
            b1 == ((x >> 8u32) & 0xff) as u8,
            b2 == ((x >> 16u32) & 0xff) as u8,
            b3 == ((x >> 24u32) & 0xff) as u8,
    ;
}

/// Reading the binary form of a record gives the record back: the form
/// starts with `STATE`, has the length it announces, and describes it.
pub proof fn law_state_roundtrip(r: StateRecord)
    requires
        r.perm@.len() <= usize::MAX,
    ensures
        state_encoded(r).len() >= 21,
        state_encoded(r).subrange(0, 5) == state_magic(),
        state_encoded(r).len() == announced_len(state_encoded(r)),
        state_decodes(state_encoded(r), r),
{
    let e = state_encoded(r);
    let n = r.perm@.len() as int;
    lemma_words_bytes(r.perm@);
    assert(e.subrange(0, 5) =~= state_magic());
    lemma_le_roundtrip(r.dimension as u64);
    lemma_le_roundtrip(n as u64);
    assert(le_value(e, 5) == le_value(le_bytes(r.dimension as u64), 0)) by {
        assert forall|k: int| 0 <= k < 8 implies e[5 + k] == #[trigger] le_bytes(r.dimension as u64)[k] by {}
    }
    assert(le_value(e, 13) == le_value(le_bytes(n as u64), 0)) by {
        assert forall|k: int| 0 <= k < 8 implies e[13 + k] == #[trigger] le_bytes(n as u64)[k] by {}
    }
    assert(le_value(e, 13) == n);
    assert forall|i: int| 0 <= i < n implies #[trigger] r.perm@[i] == word_value(e, 21 + 16 * i) by {
        assert(e.subrange(21 + 16 * i, 21 + 16 * i + 16) =~= words_bytes(r.perm@).subrange(16 * i, 16 * i + 16));
        lemma_word_roundtrip(e, 21 + 16 * i, r.perm@[i]);
    }
    assert(e.subrange(21 + 16 * n, 25 + 16 * n) =~= ori_bytes(r.ori@[0]));
    lemma_ori_roundtrip(e, 21 + 16 * n, r.ori@[0]);
    assert(e.subrange(25 + 16 * n, 29 + 16 * n) =~= ori_bytes(r.ori@[1]));
    lemma_ori_roundtrip(e, 25 + 16 * n, r.ori@[1]);
}

} // verus!
