//! The geometry of a cube of a given dimension: how many groups of each of
//! the six orbit kinds it has.
use vstd::prelude::*;

use crate::error::CubeError;

verus! {

/// The number of orbit kinds: corners, single edges, fixed centers, center
/// pieces, coupled edges, center-edge wings.
pub const NUM_KIND: usize = 6;

/// The number of groups of orbit kind `kind` of a cube of dimension `d`.
pub open spec fn layout_orbit(d: nat, kind: int) -> nat {
    let m = d % 2;
    let t = ((d - 2 - m) / 2) as nat;
    if kind == 0 {
        1
    } else if kind == 1 || kind == 2 {
        m
    } else if kind == 3 {
        t * t
    } else if kind == 4 {
        t
    } else {
        t * m
    }
}

/// The offset of orbit kind `kind`: the number of groups of all the kinds
/// before it.
pub open spec fn layout_offset(d: nat, kind: int) -> nat
    decreases kind,
{
    if kind <= 0 {
        0
    } else {
        layout_offset(d, kind - 1) + layout_orbit(d, kind - 1)
    }
}

/// The number of groups of all kinds.
pub open spec fn layout_len(d: nat) -> nat {
    1 + layout_orbit(d, 1) + layout_orbit(d, 2) + layout_orbit(d, 3) + layout_orbit(d, 4)
        + layout_orbit(d, 5)
}

/// The layout of dimension `d` can be computed in `usize`.
pub open spec fn layout_fits(d: nat) -> bool {
    d >= 2 && layout_len(d) <= usize::MAX
}

/// The geometry of a cube: its dimension, its parity and the number of
/// groups of each orbit kind.
#[derive(Debug, Clone, Copy)]
pub struct Layout {
    dimension: usize,
    par: bool,
    orbits: [usize; 6],
    orbits_offset: [usize; 6],
    orbits_len: usize,
}

impl Layout {
    /// The layout is the layout of its dimension.
    pub closed spec fn wf(&self) -> bool {
        let d = self.dimension as nat;
        &&& layout_fits(d)
        &&& self.par == (d % 2 == 0)
        &&& forall|k: int| 0 <= k < 6 ==> #[trigger] self.orbits@[k] == layout_orbit(d, k)
        &&& forall|k: int| 0 <= k < 6 ==> #[trigger] self.orbits_offset@[k] == layout_offset(d, k)
        &&& self.orbits_len == layout_len(d)
    }

    /// The dimension.
    pub closed spec fn spec_dimension(&self) -> nat {
        self.dimension as nat
    }

    /// The layout of a cube of dimension `dimension`.
    pub fn new(dimension: usize) -> (r: Self)
        requires
            layout_fits(dimension as nat),
        ensures
            r.wf(),
            r.spec_dimension() == dimension,
    {
        let ghost d = dimension as nat;
        let m = dimension % 2;
        let par = m == 0;
        let t = (dimension - 2 - m) / 2;
        assert(t * t <= layout_len(d) && t * m <= t) by (nonlinear_arith)
            requires
                t * t == layout_orbit(d, 3),
                t == layout_orbit(d, 4),
                t * m == layout_orbit(d, 5),
                m <= 1,
                layout_len(d) == 1 + m + m + t * t + t + t * m,
        ;
        let orbits: [usize; 6] = [1, m, m, t * t, t, t * m];
        let mut orbits_offset: [usize; 6] = [0; 6];
        proof {
            reveal_with_fuel(layout_offset, 7);
            assert(layout_offset(d, 6) == layout_len(d));
            assert forall|k: int| 0 <= k <= 6 implies #[trigger] layout_offset(d, k) <= layout_len(d) by {
                reveal_with_fuel(layout_offset, 7);
            }
        }
        let mut i: usize = 1;
        while i < 6
            invariant
                1 <= i <= 6,
                d == dimension,
                layout_fits(d),
                forall|k: int| 0 <= k < 6 ==> #[trigger] orbits@[k] == layout_orbit(d, k),
                forall|k: int| 0 <= k < i ==> #[trigger] orbits_offset@[k] == layout_offset(d, k),
                layout_len(d) <= usize::MAX,
                forall|k: int| 0 <= k <= 6 ==> #[trigger] layout_offset(d, k) <= layout_len(d),
            decreases 6 - i,
        {
            assert(orbits_offset@[i - 1] == layout_offset(d, i - 1));
            assert(layout_offset(d, i as int) == layout_offset(d, i - 1) + layout_orbit(d, i - 1));
            assert(layout_offset(d, i as int) <= layout_len(d));
            orbits_offset[i] = orbits_offset[i - 1] + orbits[i - 1];
            i = i + 1;
        }
        assert(layout_offset(d, 6) == layout_offset(d, 5) + layout_orbit(d, 5));
        let orbits_len = orbits_offset[5] + orbits[5];
        Layout { dimension, par, orbits, orbits_offset, orbits_len }
    }

    /// The layout of a cube of dimension `dimension`, or
    /// `InvalidDimension` when the dimension is below 2, at least 2³², or
    /// too large for the counts to fit in a `usize`.
    pub fn try_new(dimension: usize) -> (r: Result<Self, CubeError>)
        ensures
            match r {
                Ok(l) => 2 <= dimension < 4294967296 && l.wf() && l.spec_dimension() == dimension,
                Err(e) => e == CubeError::InvalidDimension { got: dimension } && (dimension < 2
                    || dimension >= 4294967296 || !layout_fits(dimension as nat)),
            },
            2 <= dimension < 4294967296 && layout_fits(dimension as nat) ==> r is Ok,
    {
        if dimension < 2 {
            Err(CubeError::InvalidDimension { got: dimension })
        } else if dimension as u64 >= 4294967296u64 {
            Err(CubeError::InvalidDimension { got: dimension })
        } else {
            let ghost d = dimension as nat;
            let m = dimension % 2;
            let t = (dimension - 2 - m) / 2;
            assert(t * m <= t) by (nonlinear_arith)
                requires
                    m <= 1,
            ;
            let tm = t * m;
            let fits = match t.checked_mul(t) {
                Some(tt) => match tt.checked_add(t) {
                    Some(a) => match a.checked_add(tm) {
                        Some(b) => match b.checked_add(m) {
                            Some(c) => match c.checked_add(m) {
                                Some(e) => e < usize::MAX,
                                None => false,
                            },
                            None => false,
                        },
                        None => false,
                    },
                    None => false,
                },
                None => false,
            };
            assert(layout_len(d) == 1 + m + m + t * t + t + t * m);
            if fits {
                Ok(Self::new(dimension))
            } else {
                Err(CubeError::InvalidDimension { got: dimension })
            }
        }
    }

    /// The dimension.
    pub fn dimension(&self) -> (r: usize)
        ensures
            r == self.spec_dimension(),
    {
        self.dimension
    }

    /// Whether the dimension is even.
    pub fn par(&self) -> (r: bool)
        requires
            self.wf(),
        ensures
            r == (self.spec_dimension() % 2 == 0),
    {
        self.par
    }

    /// The number of groups of each orbit kind.
    pub fn orbits(&self) -> (r: [usize; 6])
        requires
            self.wf(),
        ensures
            forall|k: int| 0 <= k < 6 ==> #[trigger] r@[k] == layout_orbit(self.spec_dimension(), k),
    {
        self.orbits
    }

    /// The number of groups of orbit kind `kind`.
    pub fn orbit(&self, kind: usize) -> (r: usize)
        requires
            self.wf(),
            kind < 6,
        ensures
            r == layout_orbit(self.spec_dimension(), kind as int),
    {
        self.orbits[kind]
    }

    /// The offset of orbit kind `kind`: the number of groups of the kinds
    /// before it.
    pub fn orbit_offset(&self, kind: usize) -> (r: usize)
        requires
            self.wf(),
            kind < 6,
        ensures
            r == layout_offset(self.spec_dimension(), kind as int),
    {
        self.orbits_offset[kind]
    }

    /// The offset of each orbit kind.
    pub fn orbits_offset(&self) -> (r: [usize; 6])
        requires
            self.wf(),
        ensures
            forall|k: int| 0 <= k < 6 ==> #[trigger] r@[k] == layout_offset(self.spec_dimension(), k),
    {
        self.orbits_offset
    }

    /// The number of groups of all kinds.
    pub fn orbits_len(&self) -> (r: usize)
        requires
            self.wf(),
        ensures
            r == layout_len(self.spec_dimension()),
    {
        self.orbits_len
    }
}

} // verus!
