use crate::shape::{checked_product, horner, in_lattice, prefix_prod, suffix_prod};
use crate::geometry::DataFormat;
use vstd::prelude::*;

verus! {

/// A dense row-major tensor.
#[derive(Clone, Debug)]
pub struct Tensor<T> {
    pub shape: Vec<usize>,
    pub data: Vec<T>,
}

impl<T> Tensor<T> {
    pub open spec fn wf(&self) -> bool {
        self.data@.len() == prefix_prod(self.shape@, self.shape@.len() as int)
    }

    /// A tensor of the given shape over `data`, or `None` when the length of `data` is not
    /// the product of `shape`.
    pub fn new(shape: Vec<usize>, data: Vec<T>) -> (r: Option<Tensor<T>>)
        ensures
            r is Some <==> data@.len() == prefix_prod(shape@, shape@.len() as int),
            r matches Some(t) ==> t.shape@ == shape@ && t.data@ == data@ && t.wf(),
    {
        proof {
            crate::shape::lemma_prefix_prod_is_product(shape@);
        }
        let len = data.len();
        match checked_product(&shape) {
            Some(p) => {
                if p == data.len() {
                    Some(Tensor { shape, data })
                } else {
                    None
                }
            },
            None => None,
        }
    }
}

/// Resolved layout of a feature tensor that carries a batch axis.
#[derive(Clone, Debug)]
pub struct DataShape {
    pub fmt: DataFormat,
    pub shape: Vec<usize>,
}

impl DataShape {
    pub open spec fn wf(&self) -> bool {
        self.fmt.has_n_spec() && self.shape@.len() >= 2
    }

    pub open spec fn rank(&self) -> int {
        self.shape@.len() - 2
    }

    pub open spec fn c_axis(&self) -> int {
        if self.fmt.c_is_last_spec() {
            self.shape@.len() - 1
        } else {
            1
        }
    }

    /// Axis of the tensor that holds spatial axis `r`.
    pub open spec fn hw_axis(&self, r: int) -> int {
        if self.fmt.c_is_last_spec() {
            r + 1
        } else {
            r + 2
        }
    }

    pub open spec fn n_spec(&self) -> int {
        self.shape@[0] as int
    }

    pub open spec fn c_spec(&self) -> int {
        self.shape@[self.c_axis()] as int
    }

    pub open spec fn hw_dims_spec(&self) -> Seq<usize> {
        Seq::new(self.rank() as nat, |r: int| self.shape@[self.hw_axis(r)])
    }

    /// Distance between consecutive values along axis `a`.
    pub open spec fn stride(&self, a: int) -> nat {
        suffix_prod(self.shape@, a + 1)
    }

    pub open spec fn hw_strides_spec(&self) -> Seq<usize> {
        Seq::new(self.rank() as nat, |r: int| self.stride(self.hw_axis(r)) as usize)
    }

    /// Coordinates in the tensor of batch `b`, channel `c` and spatial point `y`.
    pub open spec fn full_coords(&self, b: int, c: int, y: Seq<int>) -> Seq<int> {
        Seq::new(
            self.shape@.len(),
            |a: int|
                if a == 0 {
                    b
                } else if a == self.c_axis() {
                    c
                } else if self.fmt.c_is_last_spec() {
                    y[a - 1]
                } else {
                    y[a - 2]
                },
        )
    }

    /// Every product of trailing axes past the batch axis fits in `usize`.
    pub open spec fn fits(&self) -> bool {
        forall|i: int| 1 <= i <= self.shape@.len() ==> #[trigger] suffix_prod(self.shape@, i) <= usize::MAX
    }

    pub open spec fn offset(&self, b: int, c: int, y: Seq<int>) -> int {
        horner(self.shape@, self.full_coords(b, c, y), self.shape@.len() as int)
    }

    pub fn n(&self) -> (r: usize)
        requires
            self.wf(),
        ensures
            r == self.n_spec(),
    {
        self.shape[0]
    }

    pub fn c_dim(&self) -> (r: usize)
        requires
            self.wf(),
        ensures
            r == self.c_spec(),
    {
        if self.fmt.c_is_last() {
            self.shape[self.shape.len() - 1]
        } else {
            self.shape[1]
        }
    }

    pub fn hw_dims(&self) -> (r: Vec<usize>)
        requires
            self.wf(),
        ensures
            r@ == self.hw_dims_spec(),
    {
        let first: usize = if self.fmt.c_is_last() { 1 } else { 2 };
        let rank = self.shape.len() - 2;
        let len = self.shape.len();
        let mut out: Vec<usize> = Vec::new();
        let mut r: usize = 0;
        while r < rank
            invariant
                self.wf(),
                rank == self.rank(),
                len == self.shape@.len(),
                first == self.hw_axis(0),
                first + rank <= self.shape@.len(),
                r <= rank,
                out@.len() == r,
                forall|x: int| 0 <= x < r ==> #[trigger] out@[x] == self.hw_dims_spec()[x],
            decreases rank - r,
        {
            out.push(self.shape[first + r]);
            r = r + 1;
        }
        assert(out@ =~= self.hw_dims_spec());
        out
    }

    /// Strides of the spatial axes, or `None` when one does not fit in `usize`.
    pub fn hw_strides(&self) -> (r: Option<Vec<usize>>)
        requires
            self.wf(),
        ensures
            r matches Some(v) ==> v@ == self.hw_strides_spec() && forall|x: int|
                0 <= x < self.rank() ==> #[trigger] self.stride(self.hw_axis(x)) <= usize::MAX,
            r is None ==> !self.fits(),
    {
        let first: usize = if self.fmt.c_is_last() { 1 } else { 2 };
        let rank = self.shape.len() - 2;
        let len = self.shape.len();
        let mut out: Vec<usize> = Vec::new();
        let mut r: usize = 0;
        while r < rank
            invariant
                self.wf(),
                rank == self.rank(),
                len == self.shape@.len(),
                first == self.hw_axis(0),
                first + rank <= self.shape@.len(),
                r <= rank,
                out@.len() == r,
                forall|x: int| 0 <= x < r ==> #[trigger] out@[x] == self.hw_strides_spec()[x],
                forall|x: int| 0 <= x < r ==> #[trigger] self.stride(self.hw_axis(x)) <= usize::MAX,
            decreases rank - r,
        {
            let a = first + r;
            let mut acc: usize = 1;
            let mut i: usize = len;
            while i > a + 1
                invariant
                    a + 1 <= len,
                    i <= len,
                    i >= a + 1,
                    len == self.shape@.len(),
                    acc == suffix_prod(self.shape@, i as int),
                decreases i,
            {
                i = i - 1;
                match self.shape[i].checked_mul(acc) {
                    Some(p) => {
                        acc = p;
                    },
                    None => {
                        proof {
                            assert(suffix_prod(self.shape@, i as int) == (self.shape@[i as int] as nat)
                                * suffix_prod(self.shape@, i + 1));
                            assert(!(suffix_prod(self.shape@, i as int) <= usize::MAX));
                        }
                        return None;
                    },
                }
            }
            out.push(acc);
            r = r + 1;
        }
        assert(out@ =~= self.hw_strides_spec());
        Some(out)
    }
}

/// Value of the input at batch `b`, channel `c` and spatial point `y`, or `pad` where `y`
/// lies outside the input.
pub open spec fn input_value<T>(ds: DataShape, data: Seq<T>, b: int, c: int, y: Seq<int>, pad: T) -> T {
    if in_lattice(ds.hw_dims_spec(), y) {
        data[ds.offset(b, c, y)]
    } else {
        pad
    }
}

/// Integer coordinates of a point given as `usize` values.
pub open spec fn as_ints(y: Seq<usize>) -> Seq<int> {
    Seq::new(y.len(), |r: int| y[r] as int)
}

/// Position in the input of batch `b`, channel `c` and spatial point `y`.
pub(crate) fn offset_of(ds: &DataShape, data_len: usize, b: usize, c: usize, y: &Vec<usize>) -> (r: usize)
    requires
        ds.wf(),
        data_len == prefix_prod(ds.shape@, ds.shape@.len() as int),
        b < ds.n_spec(),
        c < ds.c_spec(),
        in_lattice(ds.hw_dims_spec(), as_ints(y@)),
    ensures
        r == ds.offset(b as int, c as int, as_ints(y@)),
        r < data_len,
{
    let ghost z = ds.full_coords(b as int, c as int, as_ints(y@));
    let len = ds.shape.len();
    let c_last = ds.fmt.c_is_last();
    let c_axis: usize = if c_last { len - 1 } else { 1 };
    proof {
        assert(in_lattice(ds.shape@, z)) by {
            assert forall|a: int| 0 <= a < ds.shape@.len() implies 0 <= #[trigger] z[a] < ds.shape@[a] by {
                if a != 0 && a != ds.c_axis() {
                    let r = if c_last { a - 1 } else { a - 2 };
                    assert(ds.hw_axis(r) == a);
                    assert(0 <= as_ints(y@)[r] < ds.hw_dims_spec()[r]);
                }
            }
        }
        assert forall|x: int| 0 <= x < ds.shape@.len() implies #[trigger] ds.shape@[x] > 0 by {
            assert(0 <= z[x] < ds.shape@[x]);
        }
    }
    let mut acc: usize = 0;
    let mut a: usize = 0;
    while a < len
        invariant
            ds.wf(),
            len == ds.shape@.len(),
            c_last == ds.fmt.c_is_last_spec(),
            c_axis == ds.c_axis(),
            data_len == prefix_prod(ds.shape@, len as int),
            z == ds.full_coords(b as int, c as int, as_ints(y@)),
            in_lattice(ds.shape@, z),
            forall|x: int| 0 <= x < ds.shape@.len() ==> #[trigger] ds.shape@[x] > 0,
            y@.len() == ds.rank(),
            a <= len,
            acc == horner(ds.shape@, z, a as int),
        decreases len - a,
    {
        let za: usize = if a == 0 {
            b
        } else if a == c_axis {
            c
        } else if c_last {
            y[a - 1]
        } else {
            y[a - 2]
        };
        proof {
            assert(za == z[a as int]);
            crate::shape::lemma_horner_bound(ds.shape@, z, a + 1);
            crate::shape::lemma_prefix_prod_mono(ds.shape@, a + 1, len as int);
            assert(acc * ds.shape@[a as int] + za == horner(ds.shape@, z, a + 1));
            assert(acc * ds.shape@[a as int] <= acc * ds.shape@[a as int] + za);
        }
        acc = acc * ds.shape[a] + za;
        a = a + 1;
    }
    proof {
        crate::shape::lemma_horner_bound(ds.shape@, z, len as int);
    }
    acc
}

/// Proof that the offset of a point of a two-dimensional input is linear in its coordinates.
pub(crate) proof fn lemma_offset_2d(ds: DataShape, b: int, c: int, y: int, x: int)
    requires
        ds.wf(),
        ds.rank() == 2,
    ensures
        ds.offset(b, c, seq![y, x]) == ds.offset(b, c, seq![0int, 0int]) + y * ds.stride(ds.hw_axis(0))
            + x * ds.stride(ds.hw_axis(1)),
{
    let sh = ds.shape@;
    let s1 = sh[1] as int;
    let s2 = sh[2] as int;
    let s3 = sh[3] as int;
    assert(suffix_prod(sh, 4) == 1);
    assert(suffix_prod(sh, 3) == (sh[3] as nat) * suffix_prod(sh, 4));
    assert(suffix_prod(sh, 3) == s3);
    assert(suffix_prod(sh, 2) == (sh[2] as nat) * suffix_prod(sh, 3));
    let z = ds.full_coords(b, c, seq![y, x]);
    let z0 = ds.full_coords(b, c, seq![0int, 0int]);
    assert forall|zz: Seq<int>| #[trigger] horner(sh, zz, 4) == ((zz[0] * s1 + zz[1]) * s2 + zz[2]) * s3 + zz[3] by {
        assert(horner(sh, zz, 0) == 0);
        assert(horner(sh, zz, 1) == horner(sh, zz, 0) * sh[0] + zz[0]);
        assert(horner(sh, zz, 2) == horner(sh, zz, 1) * s1 + zz[1]);
        assert(horner(sh, zz, 3) == horner(sh, zz, 2) * s2 + zz[2]);
        assert(horner(sh, zz, 4) == horner(sh, zz, 3) * s3 + zz[3]);
    }
    assert(horner(sh, z, 4) == ((z[0] * s1 + z[1]) * s2 + z[2]) * s3 + z[3]);
    assert(horner(sh, z0, 4) == ((z0[0] * s1 + z0[1]) * s2 + z0[2]) * s3 + z0[3]);
    if ds.fmt.c_is_last_spec() {
        assert(((b * s1 + y) * s2 + x) * s3 + c == ((b * s1 + 0) * s2 + 0) * s3 + c + y * (s2 * s3) + x * s3)
            by (nonlinear_arith);
    } else {
        assert(((b * s1 + c) * s2 + y) * s3 + x == ((b * s1 + c) * s2 + 0) * s3 + 0 + y * s3 + x * 1)
            by (nonlinear_arith);
    }
}

/// Proof that the offset of a point of a one-dimensional input is linear in its coordinate.
pub(crate) proof fn lemma_offset_1d(ds: DataShape, b: int, c: int, x: int)
    requires
        ds.wf(),
        ds.rank() == 1,
    ensures
        ds.offset(b, c, seq![x]) == ds.offset(b, c, seq![0int]) + x * ds.stride(ds.hw_axis(0)),
{
    let sh = ds.shape@;
    let s1 = sh[1] as int;
    let s2 = sh[2] as int;
    assert(suffix_prod(sh, 3) == 1);
    assert(suffix_prod(sh, 2) == (sh[2] as nat) * suffix_prod(sh, 3));
    assert(suffix_prod(sh, 2) == s2);
    let z = ds.full_coords(b, c, seq![x]);
    let z0 = ds.full_coords(b, c, seq![0int]);
    assert forall|zz: Seq<int>| #[trigger] horner(sh, zz, 3) == (zz[0] * s1 + zz[1]) * s2 + zz[2] by {
        assert(horner(sh, zz, 0) == 0);
        assert(horner(sh, zz, 1) == horner(sh, zz, 0) * sh[0] + zz[0]);
        assert(horner(sh, zz, 2) == horner(sh, zz, 1) * s1 + zz[1]);
        assert(horner(sh, zz, 3) == horner(sh, zz, 2) * s2 + zz[2]);
    }
    assert(horner(sh, z, 3) == (z[0] * s1 + z[1]) * s2 + z[2]);
    assert(horner(sh, z0, 3) == (z0[0] * s1 + z0[1]) * s2 + z0[2]);
    if ds.fmt.c_is_last_spec() {
        assert((b * s1 + x) * s2 + c == (b * s1 + 0) * s2 + c + x * s2) by (nonlinear_arith);
    } else {
        assert((b * s1 + c) * s2 + x == (b * s1 + c) * s2 + 0 + x * 1) by (nonlinear_arith);
    }
}

/// Proof that a point inside the input has an offset inside its data.
pub(crate) proof fn lemma_offset_bound(ds: DataShape, data_len: int, b: int, c: int, y: Seq<int>)
    requires
        ds.wf(),
        data_len == prefix_prod(ds.shape@, ds.shape@.len() as int),
        0 <= b < ds.n_spec(),
        0 <= c < ds.c_spec(),
        in_lattice(ds.hw_dims_spec(), y),
    ensures
        0 <= ds.offset(b, c, y) < data_len,
{
    let z = ds.full_coords(b, c, y);
    let c_last = ds.fmt.c_is_last_spec();
    assert(in_lattice(ds.shape@, z)) by {
        assert forall|a: int| 0 <= a < ds.shape@.len() implies 0 <= #[trigger] z[a] < ds.shape@[a] by {
            if a != 0 && a != ds.c_axis() {
                let r = if c_last { a - 1 } else { a - 2 };
                assert(ds.hw_axis(r) == a);
                assert(0 <= y[r] < ds.hw_dims_spec()[r]);
            }
        }
    }
    crate::shape::lemma_horner_bound(ds.shape@, z, ds.shape@.len() as int);
}

/// Whether every product of trailing axes past the batch axis fits in `usize`.
pub(crate) fn trailing_products_fit(ds: &DataShape) -> (r: bool)
    requires
        ds.wf(),
    ensures
        r == ds.fits(),
{
    let len = ds.shape.len();
    let mut acc: usize = 1;
    let mut i: usize = len;
    while i > 1
        invariant
            i <= len,
            i >= 1,
            len == ds.shape@.len(),
            acc == suffix_prod(ds.shape@, i as int),
            forall|x: int| i <= x <= len ==> #[trigger] suffix_prod(ds.shape@, x) <= usize::MAX,
        decreases i,
    {
        i = i - 1;
        match ds.shape[i].checked_mul(acc) {
            Some(p) => {
                acc = p;
            },
            None => {
                proof {
                    assert(!(suffix_prod(ds.shape@, i as int) <= usize::MAX));
                }
                return false;
            },
        }
    }
    true
}

/// Proof that the value read at a point depends on a layout's format and shape only.
pub proof fn lemma_input_value_view<T>(a: DataShape, d: DataShape, data: Seq<T>, b: int, c: int, y: Seq<int>, pad: T)
    requires
        a.fmt == d.fmt,
        a.shape@ == d.shape@,
    ensures
        input_value(a, data, b, c, y, pad) == input_value(d, data, b, c, y, pad),
{
    assert(a.hw_dims_spec() =~= d.hw_dims_spec());
    assert(a.full_coords(b, c, y) =~= d.full_coords(b, c, y));
}

} // verus!
