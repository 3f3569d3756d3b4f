//! The record of a layout that the command line tool prints and reads, and
//! its binary form: the magic `LAYOUT`, the dimension, a parity byte, the
//! six orbit counts, the six orbit offsets and the total count, each number
//! as eight little-endian bytes.
use vstd::prelude::*;

use crate::error::CubeError;
use crate::layout::{layout_len, layout_offset, layout_orbit, Layout};

verus! {

/// The figures of a layout, as plain values.
#[derive(Debug, Clone, Copy)]
pub struct LayoutWrapper {
    pub dimension: usize,
    pub par: bool,
    pub orbits: [usize; 6],
    pub orbits_offset: [usize; 6],
    pub orbits_len: usize,
}

/// Why a binary layout could not be read.
#[derive(Debug, Clone, Copy, PartialEq, Eq, Structural)]
pub enum LayoutFormatError {
    /// The bytes end before the record does.
    Truncated,
    /// The bytes do not start with `LAYOUT`.
    InvalidFormat,
}

/// The length of the binary form of a layout.
pub const LAYOUT_BYTES: usize = 119;

/// The magic that starts the binary form: the letters of `LAYOUT`.
pub open spec fn magic() -> Seq<u8> {
    seq![76u8, 65u8, 89u8, 79u8, 85u8, 84u8]
}

/// The eight little-endian bytes of `x`.
pub open spec fn le_bytes(x: u64) -> Seq<u8> {
    Seq::new(8, |k: int| ((x >> ((8 * k) as u64)) & 0xff) as u8)
}

/// The number whose eight little-endian bytes are `b[at .. at + 8]`.
pub open spec fn le_value(b: Seq<u8>, at: int) -> u64 {
    (b[at] as u64) | ((b[at + 1] as u64) << 8u64) | ((b[at + 2] as u64) << 16u64) | ((b[at + 3] as u64)
        << 24u64) | ((b[at + 4] as u64) << 32u64) | ((b[at + 5] as u64) << 40u64) | ((b[at + 6] as u64)
        << 48u64) | ((b[at + 7] as u64) << 56u64)
}

/// The binary form of `w`.
pub open spec fn encoded(w: LayoutWrapper) -> Seq<u8> {
    magic() + le_bytes(w.dimension as u64) + seq![if w.par { 1u8 } else { 0u8 }] + le_bytes(
        w.orbits@[0] as u64,
    ) + le_bytes(w.orbits@[1] as u64) + le_bytes(w.orbits@[2] as u64) + le_bytes(w.orbits@[3] as u64)
        + le_bytes(w.orbits@[4] as u64) + le_bytes(w.orbits@[5] as u64) + le_bytes(
        w.orbits_offset@[0] as u64,
    ) + le_bytes(w.orbits_offset@[1] as u64) + le_bytes(w.orbits_offset@[2] as u64) + le_bytes(
        w.orbits_offset@[3] as u64,
    ) + le_bytes(w.orbits_offset@[4] as u64) + le_bytes(w.orbits_offset@[5] as u64) + le_bytes(
        w.orbits_len as u64,
    )
}

/// `w` is the record that the binary form `b` describes (the bytes after
/// the record are ignored).
pub open spec fn decodes(b: Seq<u8>, w: LayoutWrapper) -> bool {
    &&& w.dimension == le_value(b, 6) as usize
    &&& w.par == (b[14] == 1)
    &&& forall|k: int| 0 <= k < 6 ==> #[trigger] w.orbits@[k] == le_value(b, 15 + 8 * k) as usize
    &&& forall|k: int| 0 <= k < 6 ==> #[trigger] w.orbits_offset@[k] == le_value(b, 63 + 8 * k) as usize
    &&& w.orbits_len == le_value(b, 111) as usize
}

/// Reading eight little-endian bytes gives back the number they were
/// written from.
pub(crate) proof fn lemma_le_roundtrip(x: u64)
    ensures
        le_value(le_bytes(x), 0) == x,
{
    let b = le_bytes(x);
    let b0 = b[0];
    let b1 = b[1];
    let b2 = b[2];
    let b3 = b[3];
    let b4 = b[4];
    let b5 = b[5];
    let b6 = b[6];
    let b7 = b[7];
    assert((b0 as u64) | ((b1 as u64) << 8u64) | ((b2 as u64) << 16u64) | ((b3 as u64) << 24u64) | ((
    b4 as u64) << 32u64) | ((b5 as u64) << 40u64) | ((b6 as u64) << 48u64) | ((b7 as u64) << 56u64)
        == x) by (bit_vector)
        requires
            b0 == ((x >> 0u64) & 0xff) as u8,
            b1 == ((x >> 8u64) & 0xff) as u8,
            b2 == ((x >> 16u64) & 0xff) as u8,
            b3 == ((x >> 24u64) & 0xff) as u8,
            b4 == ((x >> 32u64) & 0xff) as u8,
            b5 == ((x >> 40u64) & 0xff) as u8,
            b6 == ((x >> 48u64) & 0xff) as u8,
            b7 == ((x >> 56u64) & 0xff) as u8,
    ;
}

pub(crate) fn push_le(out: &mut Vec<u8>, x: u64)
    ensures
        final(out)@ == old(out)@ + le_bytes(x),
{
    let mut k: u64 = 0;
    let ghost start = out@;
    while k < 8
        invariant
            k <= 8,
            out@ == start + le_bytes(x).take(k as int),
        decreases 8 - k,
    {
        out.push(((x >> (8 * k)) & 0xff) as u8);
        k = k + 1;
        assert(out@ =~= start + le_bytes(x).take(k as int));
    }
    assert(le_bytes(x).take(8) =~= le_bytes(x));
}

pub(crate) fn read_le(b: &[u8], at: usize) -> (r: u64)
    requires
        at + 8 <= b@.len(),
    ensures
        r == le_value(b@, at as int),
{
    (b[at] as u64) | ((b[at + 1] as u64) << 8u64) | ((b[at + 2] as u64) << 16u64) | ((b[at + 3] as u64)
        << 24u64) | ((b[at + 4] as u64) << 32u64) | ((b[at + 5] as u64) << 40u64) | ((b[at + 6] as u64)
        << 48u64) | ((b[at + 7] as u64) << 56u64)
}

impl LayoutWrapper {
    /// The figures of the layout of a cube of dimension `dimension`, or the
    /// error of [`Layout::try_new`].
    pub fn try_new(dimension: usize) -> (r: Result<Self, CubeError>)
        ensures
            match r {
                Ok(w) => {
                    &&& 2 <= dimension < 4294967296
                    &&& w.dimension == dimension
                    &&& w.par == (dimension % 2 == 0)
                    &&& forall|k: int| 0 <= k < 6 ==> #[trigger] w.orbits@[k] == layout_orbit(dimension as nat, k)
                    &&& forall|k: int| 0 <= k < 6 ==> #[trigger] w.orbits_offset@[k] == layout_offset(dimension as nat, k)
                    &&& w.orbits_len == layout_len(dimension as nat)
                },
                Err(e) => e == CubeError::InvalidDimension { got: dimension },
            },
            2 <= dimension < 4294967296 && crate::layout::layout_fits(dimension as nat) ==> r is Ok,
    {
        match Layout::try_new(dimension) {
            Ok(l) => Ok(LayoutWrapper {
                dimension: l.dimension(),
                par: l.par(),
                orbits: l.orbits(),
                orbits_offset: l.orbits_offset(),
                orbits_len: l.orbits_len(),
            }),
            Err(e) => Err(e),
        }
    }

    /// The binary form of the record.
    pub fn binary(&self) -> (r: Vec<u8>)
        ensures
            r@ == encoded(*self),
            r@.len() == LAYOUT_BYTES,
    {
        let mut out: Vec<u8> = Vec::new();
        out.push(76u8);
        out.push(65u8);
        out.push(89u8);
        out.push(79u8);
        out.push(85u8);
        out.push(84u8);
        assert(out@ =~= magic());
        push_le(&mut out, self.dimension as u64);
        let ghost before = out@;
        out.push(if self.par { 1u8 } else { 0u8 });
        assert(out@ =~= before + seq![if self.par { 1u8 } else { 0u8 }]);
        push_le(&mut out, self.orbits[0] as u64);
        push_le(&mut out, self.orbits[1] as u64);
        push_le(&mut out, self.orbits[2] as u64);
        push_le(&mut out, self.orbits[3] as u64);
        push_le(&mut out, self.orbits[4] as u64);
        push_le(&mut out, self.orbits[5] as u64);
        push_le(&mut out, self.orbits_offset[0] as u64);
        push_le(&mut out, self.orbits_offset[1] as u64);
        push_le(&mut out, self.orbits_offset[2] as u64);
        push_le(&mut out, self.orbits_offset[3] as u64);
        push_le(&mut out, self.orbits_offset[4] as u64);
        push_le(&mut out, self.orbits_offset[5] as u64);
        push_le(&mut out, self.orbits_len as u64);
        out
    }

    /// Reads the record from its binary form `buffer`: `Truncated` when the
    /// bytes end before the magic or before the record, `InvalidFormat` when
    /// they do not start with `LAYOUT`; the record is unchanged on an error.
    pub fn binary_r(&mut self, buffer: &[u8]) -> (r: Result<(), LayoutFormatError>)
        ensures
            buffer@.len() < 6 ==> r == Err::<(), LayoutFormatError>(LayoutFormatError::Truncated),
            buffer@.len() >= 6 && buffer@.subrange(0, 6) != magic() ==> r == Err::<(), LayoutFormatError>(
                LayoutFormatError::InvalidFormat,
            ),
            buffer@.len() >= 6 && buffer@.subrange(0, 6) == magic() && buffer@.len() < LAYOUT_BYTES ==> r
                == Err::<(), LayoutFormatError>(LayoutFormatError::Truncated),
            r is Ok <==> (buffer@.len() >= LAYOUT_BYTES && buffer@.subrange(0, 6) == magic()),
            r is Ok ==> decodes(buffer@, *final(self)),
            r is Err ==> *final(self) == *old(self),
    {
        if buffer.len() < 6 {
            return Err(LayoutFormatError::Truncated);
        }
        if !(buffer[0] == 76u8 && buffer[1] == 65u8 && buffer[2] == 89u8 && buffer[3] == 79u8
            && buffer[4] == 85u8 && buffer[5] == 84u8) {
            proof {
                if buffer@.subrange(0, 6) == magic() {
                    assert(buffer@[0] == buffer@.subrange(0, 6)[0]);
                    assert(buffer@[1] == buffer@.subrange(0, 6)[1]);
                    assert(buffer@[2] == buffer@.subrange(0, 6)[2]);
                    assert(buffer@[3] == buffer@.subrange(0, 6)[3]);
                    assert(buffer@[4] == buffer@.subrange(0, 6)[4]);
                    assert(buffer@[5] == buffer@.subrange(0, 6)[5]);
                }
            }
            return Err(LayoutFormatError::InvalidFormat);
        }
        assert(buffer@.subrange(0, 6) =~= magic());
        if buffer.len() < LAYOUT_BYTES {
            return Err(LayoutFormatError::Truncated);
        }
        self.dimension = read_le(buffer, 6) as usize;
        self.par = buffer[14] == 1;
        let mut k: usize = 0;
        while k < 6
            invariant
                k <= 6,
                buffer@.len() >= LAYOUT_BYTES,
                forall|j: int| 0 <= j < k ==> #[trigger] self.orbits@[j] == le_value(buffer@, 15 + 8 * j) as usize,
                forall|j: int| 0 <= j < k ==> #[trigger] self.orbits_offset@[j] == le_value(buffer@, 63 + 8 * j) as usize,
                self.dimension == le_value(buffer@, 6) as usize,
                self.par == (buffer@[14] == 1),
            decreases 6 - k,
        {
            let o = read_le(buffer, 15 + 8 * k) as usize;
            let f = read_le(buffer, 63 + 8 * k) as usize;
            self.orbits[k] = o;
            self.orbits_offset[k] = f;
            k = k + 1;
        }
        self.orbits_len = read_le(buffer, 111) as usize;
        Ok(())
    }
}

/// Reading the binary form of a record gives the record back: the form
/// starts with `LAYOUT`, has the length of a record, and describes it.
pub proof fn law_layout_roundtrip(w: LayoutWrapper)
    ensures
        encoded(w).len() == LAYOUT_BYTES,
        encoded(w).subrange(0, 6) == magic(),
        decodes(encoded(w), w),
{
    let e = encoded(w);
    assert(e.subrange(0, 6) =~= magic());
    assert forall|at: int, x: u64| #![trigger le_value(e, at), le_bytes(x)]
        0 <= at && at + 8 <= e.len() && e.subrange(at, at + 8) == le_bytes(x) implies le_value(e, at) == x by {
        lemma_le_roundtrip(x);
        assert(le_value(e, at) == le_value(le_bytes(x), 0)) by {
            assert(e[at] == e.subrange(at, at + 8)[0]);
            assert(e[at + 1] == e.subrange(at, at + 8)[1]);
            assert(e[at + 2] == e.subrange(at, at + 8)[2]);
            assert(e[at + 3] == e.subrange(at, at + 8)[3]);
            assert(e[at + 4] == e.subrange(at, at + 8)[4]);
            assert(e[at + 5] == e.subrange(at, at + 8)[5]);
            assert(e[at + 6] == e.subrange(at, at + 8)[6]);
            assert(e[at + 7] == e.subrange(at, at + 8)[7]);
        }
    }
    assert(e.subrange(6, 14) =~= le_bytes(w.dimension as u64));
    assert(le_value(e, 6) == w.dimension as u64);
    assert(e[14] == (if w.par { 1u8 } else { 0u8 }));
    assert forall|k: int| 0 <= k < 6 implies #[trigger] w.orbits@[k] == le_value(e, 15 + 8 * k) as usize by {
        assert(e.subrange(15 + 8 * k, 23 + 8 * k) =~= le_bytes(w.orbits@[k] as u64));
        assert(le_value(e, 15 + 8 * k) == w.orbits@[k] as u64);
    }
    assert forall|k: int| 0 <= k < 6 implies #[trigger] w.orbits_offset@[k] == le_value(e, 63 + 8 * k) as usize by {
        assert(e.subrange(63 + 8 * k, 71 + 8 * k) =~= le_bytes(w.orbits_offset@[k] as u64));
        assert(le_value(e, 63 + 8 * k) == w.orbits_offset@[k] as u64);
    }
    assert(e.subrange(111, 119) =~= le_bytes(w.orbits_len as u64));
    assert(le_value(e, 111) == w.orbits_len as u64);
}

} // verus!
