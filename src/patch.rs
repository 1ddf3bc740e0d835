use crate::geometry::{axis_geometry, axis_ok, axis_output, axis_pad_before, dilated, AxisPadding, PaddingSpec, PoolSpec};
use crate::shape::{checked_product, lemma_suffix_prod_ge, lemma_suffix_prod_pos, suffix_prod, unravel_at};
use vstd::arithmetic::div_mod::{lemma_fundamental_div_mod_converse, lemma_mod_pos_bound};
use vstd::prelude::*;

verus! {

/// Sum of `df[base + r] * strides[r]` for `r < len`.
pub open spec fn linear_offset(df: Seq<isize>, base: int, strides: Seq<usize>, len: int) -> int
    decreases len,
{
    if len <= 0 {
        0
    } else {
        linear_offset(df, base, strides, len - 1) + df[base + len - 1] * strides[len - 1]
    }
}

/// Every partial sum of `linear_offset` fits in `isize`.
pub open spec fn linear_offset_fits(df: Seq<isize>, base: int, strides: Seq<usize>, len: int) -> bool {
    forall|t: int|
        0 < t <= len ==> {
            &&& isize::MIN <= #[trigger] linear_offset(df, base, strides, t) <= isize::MAX
            &&& isize::MIN <= df[base + t - 1] * strides[t - 1] <= isize::MAX
        }
}

/// The resolved geometry of a sliding window over a concrete input.
///
/// Kernel elements are numbered in row-major order over `kernel_shape`. For kernel element
/// `i` and spatial axis `r`, `data_field[i * rank + r]` is the displacement along `r` from
/// the window origin, and `standard_layout_data_field[i]` is the offset of that element in
/// the input, with the spatial strides `input_layout_strides`.
#[derive(Clone, Debug)]
pub struct Patch {
    pub input_shape: Vec<usize>,
    pub input_layout_strides: Vec<usize>,
    pub kernel_shape: Vec<usize>,
    pub strides: Vec<usize>,
    pub dilations: Vec<usize>,
    pub pad_before: Vec<usize>,
    pub output_shape: Vec<usize>,
    pub data_field: Vec<isize>,
    pub standard_layout_data_field: Vec<isize>,
    pub padded: bool,
}

impl Patch {
    pub open spec fn rank(&self) -> nat {
        self.kernel_shape@.len()
    }

    pub open spec fn kernel_len(&self) -> nat {
        suffix_prod(self.kernel_shape@, 0)
    }

    /// Number of window positions.
    pub open spec fn output_len(&self) -> nat {
        suffix_prod(self.output_shape@, 0)
    }

    pub open spec fn df(&self, i: int, r: int) -> int {
        self.data_field@[i * self.rank() + r] as int
    }

    /// Input coordinate along axis `r` read by kernel element `i` at window position `o`.
    pub open spec fn coord(&self, o: int, i: int, r: int) -> int {
        o * self.strides@[r] + self.df(i, r)
    }

    pub open spec fn reads_outside(&self, o: int, i: int, r: int) -> bool {
        0 <= o < self.output_shape@[r] && !(0 <= self.coord(o, i, r) < self.input_shape@[r])
    }

    /// Some window position reads a coordinate outside the input.
    pub open spec fn padded_spec(&self) -> bool {
        self.output_len() > 0 && exists|o: int, i: int, r: int|
            0 <= i < self.kernel_len() && 0 <= r < self.rank() && #[trigger] self.reads_outside(o, i, r)
    }

    pub open spec fn wf(&self) -> bool {
        &&& self.wf_tables()
        &&& self.padded == self.padded_spec()
    }

    /// The tables agree with the kernel shape, dilations and padding.
    pub open spec fn wf_tables(&self) -> bool {
        let rank = self.rank();
        &&& self.input_shape@.len() == rank
        &&& self.input_layout_strides@.len() == rank
        &&& self.strides@.len() == rank
        &&& self.dilations@.len() == rank
        &&& self.pad_before@.len() == rank
        &&& self.output_shape@.len() == rank
        &&& self.data_field@.len() == self.kernel_len() * rank
        &&& self.standard_layout_data_field@.len() == self.kernel_len()
        &&& forall|r: int| 0 <= r < rank ==> #[trigger] self.kernel_shape@[r] >= 1
        &&& forall|r: int|
            0 <= r < rank ==> #[trigger] self.output_shape@[r] * self.strides@[r] + self.kernel_shape@[r]
                * self.dilations@[r] + self.input_shape@[r] + self.pad_before@[r] <= isize::MAX
        &&& forall|i: int, r: int|
            0 <= i < self.kernel_len() && 0 <= r < rank ==> #[trigger] self.df(i, r) == unravel_at(
                self.kernel_shape@,
                i,
                r,
            ) * self.dilations@[r] - self.pad_before@[r]
        &&& forall|i: int|
            0 <= i < self.kernel_len() ==> #[trigger] self.standard_layout_data_field@[i]
                == linear_offset(self.data_field@, i * rank, self.input_layout_strides@, rank as int)
    }

    /// Whether some window position reads outside the input, from the extent of the windows
    /// on each axis.
    fn padded_flag(&self, n: usize) -> (r: bool)
        requires
            self.wf_tables(),
            n == self.output_len(),
        ensures
            r == self.padded_spec(),
    {
        if n == 0 {
            return false;
        }
        let rank = self.kernel_shape.len();
        proof {
            assert forall|x: int| 0 <= x < rank implies #[trigger] self.output_shape@[x] > 0 by {
                if self.output_shape@[x] == 0 {
                    crate::shape::lemma_suffix_prod_zero(self.output_shape@, 0, x);
                }
            }
        }
        let mut r: usize = 0;
        while r < rank
            invariant
                self.wf_tables(),
                n == self.output_len(),
                n > 0,
                rank == self.rank(),
                r <= rank,
                forall|x: int| 0 <= x < rank ==> #[trigger] self.output_shape@[x] > 0,
                forall|o: int, i: int, x: int|
                    0 <= i < self.kernel_len() && 0 <= x < r ==> !#[trigger] self.reads_outside(o, i, x),
            decreases rank - r,
        {
            let out = self.output_shape[r];
            let s = self.strides[r];
            let ks = self.kernel_shape[r];
            let dl = self.dilations[r];
            let before = self.pad_before[r];
            let d = self.input_shape[r];
            proof {
                assert((out - 1) * s <= out * s) by (nonlinear_arith)
                    requires
                        out >= 1,
                ;
                assert((ks - 1) * dl <= ks * dl) by (nonlinear_arith)
                    requires
                        ks >= 1,
                ;
            }
            let last = (out - 1) * s + (ks - 1) * dl + 1;
            if before > 0 || last > d + before {
                proof {
                    self.lemma_axis_reads_outside(r as int);
                }
                return true;
            }
            proof {
                assert forall|o: int, i: int| 0 <= i < self.kernel_len() implies !#[trigger] self.reads_outside(
                    o,
                    i,
                    r as int,
                ) by {
                    if 0 <= o < out {
                        lemma_unravel_bound(self.kernel_shape@, i, r as int);
                        let kc = unravel_at(self.kernel_shape@, i, r as int);
                        assert(0 <= o * s + kc * dl <= (out - 1) * s + (ks - 1) * dl) by (nonlinear_arith)
                            requires
                                0 <= o < out,
                                0 <= kc < ks,
                                s >= 0,
                                dl >= 0,
                        ;
                    }
                }
            }
            r = r + 1;
        }
        false
    }

    /// Proof that an axis whose windows reach past either end of the input has a window
    /// position that reads outside.
    proof fn lemma_axis_reads_outside(&self, r: int)
        requires
            self.wf_tables(),
            0 <= r < self.rank(),
            self.output_len() > 0,
            self.output_shape@[r] > 0,
            self.pad_before@[r] > 0 || (self.output_shape@[r] - 1) * self.strides@[r] + (
            self.kernel_shape@[r] - 1) * self.dilations@[r] + 1 > self.input_shape@[r]
                + self.pad_before@[r],
        ensures
            self.padded_spec(),
    {
        let ks = self.kernel_shape@;
        let sf = suffix_prod(ks, r + 1) as int;
        lemma_suffix_prod_pos(ks, r + 1);
        lemma_suffix_prod_ge(ks, 0, r);
        if self.pad_before@[r] > 0 {
            lemma_suffix_prod_pos(ks, 0);
            lemma_fundamental_div_mod_converse(0, sf, 0, 0);
            lemma_fundamental_div_mod_converse(0, ks[r] as int, 0, 0);
            assert(unravel_at(ks, 0, r) == 0);
            assert(self.df(0, r) == -(self.pad_before@[r] as int));
            assert(self.reads_outside(0, 0, r));
        } else {
            let kr = ks[r] as int;
            let i = (kr - 1) * sf;
            lemma_fundamental_div_mod_converse(i, sf, kr - 1, 0);
            lemma_fundamental_div_mod_converse(kr - 1, kr, 0, kr - 1);
            assert(i < suffix_prod(ks, 0)) by (nonlinear_arith)
                requires
                    i == (kr - 1) * sf,
                    suffix_prod(ks, r) == kr * sf,
                    suffix_prod(ks, 0) >= suffix_prod(ks, r),
                    sf > 0,
            ;
            assert(i >= 0) by (nonlinear_arith)
                requires
                    i == (kr - 1) * sf,
                    kr >= 1,
                    sf > 0,
            ;
            assert(self.reads_outside(self.output_shape@[r] - 1, i, r));
        }
    }
}

/// Entry (`i`, `r`) of a table with `rank` entries per row.
pub open spec fn field_at(s: Seq<isize>, rank: int, i: int, r: int) -> int {
    s[i * rank + r] as int
}

/// Suffix products of `dims`: entry `r` is the product of `dims[r..]`.
pub(crate) fn suffix_products(dims: &Vec<usize>, total: usize) -> (r: Vec<usize>)
    requires
        total == suffix_prod(dims@, 0),
        forall|x: int| 0 <= x < dims@.len() ==> #[trigger] dims@[x] >= 1,
    ensures
        r@.len() == dims@.len() + 1,
        forall|x: int| 0 <= x <= dims@.len() ==> #[trigger] r@[x] == suffix_prod(dims@, x),
{
    let n = dims.len();
    let mut rev: Vec<usize> = Vec::new();
    let mut acc: usize = 1;
    let mut i: usize = n;
    rev.push(1);
    while i > 0
        invariant
            i <= n,
            n == dims@.len(),
            total == suffix_prod(dims@, 0),
            forall|x: int| 0 <= x < dims@.len() ==> #[trigger] dims@[x] >= 1,
            acc == suffix_prod(dims@, i as int),
            rev@.len() == n - i + 1,
            forall|x: int| 0 <= x < rev@.len() ==> #[trigger] rev@[x] == suffix_prod(dims@, n - x),
        decreases i,
    {
        i = i - 1;
        proof {
            lemma_suffix_prod_ge(dims@, 0, i as int);
        }
        acc = dims[i] * acc;
        rev.push(acc);
    }
    let mut out: Vec<usize> = Vec::new();
    let mut j: usize = 0;
    let rl = rev.len();
    while j < rl
        invariant
            rl == n + 1,
            j <= n + 1,
            n == dims@.len(),
            rev@.len() == n + 1,
            forall|x: int| 0 <= x < rev@.len() ==> #[trigger] rev@[x] == suffix_prod(dims@, n - x),
            out@.len() == j,
            forall|x: int| 0 <= x < j ==> #[trigger] out@[x] == suffix_prod(dims@, x),
        decreases n + 1 - j,
    {
        out.push(rev[n - j]);
        j = j + 1;
    }
    out
}

/// Displacements of every kernel element along every axis: for element `i` (row-major over
/// `ks`) and axis `r`, `unravel_at(ks, i, r) * dl[r] - before[r]`.
fn kernel_data_field(ks: &Vec<usize>, dl: &Vec<usize>, before: &Vec<usize>, kl: usize) -> (df: Vec<isize>)
    requires
        dl@.len() == ks@.len(),
        before@.len() == ks@.len(),
        kl == suffix_prod(ks@, 0),
        kl * ks@.len() <= usize::MAX,
        forall|x: int| 0 <= x < ks@.len() ==> #[trigger] ks@[x] >= 1,
        forall|x: int| 0 <= x < ks@.len() ==> #[trigger] ks@[x] * dl@[x] + before@[x] <= isize::MAX,
    ensures
        df@.len() == kl * ks@.len(),
        forall|i: int, r: int|
            0 <= i < kl && 0 <= r < ks@.len() ==> #[trigger] field_at(df@, ks@.len() as int, i, r)
                == unravel_at(ks@, i, r) * dl@[r] - before@[r],
{
    let rank = ks.len();
    let suf = suffix_products(ks, kl);
    let mut df: Vec<isize> = Vec::new();
    let mut i: usize = 0;
    while i < kl
        invariant
            rank == ks@.len(),
            dl@.len() == rank,
            before@.len() == rank,
            kl == suffix_prod(ks@, 0),
            kl * rank <= usize::MAX,
            forall|x: int| 0 <= x < rank ==> #[trigger] ks@[x] >= 1,
            forall|x: int| 0 <= x < rank ==> #[trigger] ks@[x] * dl@[x] + before@[x] <= isize::MAX,
            suf@.len() == rank + 1,
            forall|x: int| 0 <= x <= rank ==> #[trigger] suf@[x] == suffix_prod(ks@, x),
            i <= kl,
            df@.len() == i * rank,
            forall|a: int, r: int|
                0 <= a < i && 0 <= r < rank ==> #[trigger] field_at(df@, rank as int, a, r)
                    == unravel_at(ks@, a, r) * dl@[r] - before@[r],
        decreases kl - i,
    {
        let mut r: usize = 0;
        while r < rank
            invariant
                rank == ks@.len(),
                dl@.len() == rank,
                before@.len() == rank,
                kl == suffix_prod(ks@, 0),
                forall|x: int| 0 <= x < rank ==> #[trigger] ks@[x] >= 1,
                forall|x: int| 0 <= x < rank ==> #[trigger] ks@[x] * dl@[x] + before@[x] <= isize::MAX,
                suf@.len() == rank + 1,
                forall|x: int| 0 <= x <= rank ==> #[trigger] suf@[x] == suffix_prod(ks@, x),
                i < kl,
                r <= rank,
                df@.len() == i * rank + r,
                forall|a: int, q: int|
                    0 <= a < i && 0 <= q < rank ==> #[trigger] field_at(df@, rank as int, a, q)
                        == unravel_at(ks@, a, q) * dl@[q] - before@[q],
                forall|q: int|
                    0 <= q < r ==> #[trigger] field_at(df@, rank as int, i as int, q) == unravel_at(
                        ks@,
                        i as int,
                        q,
                    ) * dl@[q] - before@[q],
            decreases rank - r,
        {
            proof {
                lemma_suffix_prod_pos(ks@, r + 1);
                lemma_unravel_bound(ks@, i as int, r as int);
                assert(unravel_at(ks@, i as int, r as int) * dl@[r as int] <= ks@[r as int] * dl@[r as int])
                    by (nonlinear_arith)
                    requires
                        unravel_at(ks@, i as int, r as int) < ks@[r as int],
                ;
                assert(0 <= unravel_at(ks@, i as int, r as int) * dl@[r as int]) by (nonlinear_arith)
                    requires
                        unravel_at(ks@, i as int, r as int) >= 0,
                ;
            }
            let kc = (i / suf[r + 1]) % ks[r];
            let v = (kc * dl[r]) as isize - before[r] as isize;
            let ghost old_df = df@;
            df.push(v);
            proof {
                assert forall|a: int, q: int| 0 <= a < i && 0 <= q < rank implies #[trigger] field_at(
                    df@,
                    rank as int,
                    a,
                    q,
                ) == unravel_at(ks@, a, q) * dl@[q] - before@[q] by {
                    crate::matrix::lemma_cell_index(i as int, rank as int, a, q);
                    assert(field_at(df@, rank as int, a, q) == field_at(old_df, rank as int, a, q));
                }
                assert forall|q: int| 0 <= q < r + 1 implies #[trigger] field_at(
                    df@,
                    rank as int,
                    i as int,
                    q,
                ) == unravel_at(ks@, i as int, q) * dl@[q] - before@[q] by {
                    if q < r {
                        assert(field_at(df@, rank as int, i as int, q) == field_at(
                            old_df,
                            rank as int,
                            i as int,
                            q,
                        ));
                    }
                }
            }
            r = r + 1;
        }
        proof {
            assert((i + 1) * rank == i * rank + rank) by (nonlinear_arith);
            assert(i * rank + rank <= kl * rank) by (nonlinear_arith)
                requires
                    i < kl,
            ;
        }
        i = i + 1;
    }
    df
}

/// Offsets of every kernel element in an input with spatial strides `strides`, or `None`
/// when one of them does not fit in `isize`.
fn layout_offsets(df: &Vec<isize>, rank: usize, kl: usize, strides: &Vec<usize>) -> (r: Option<Vec<isize>>)
    requires
        df@.len() == kl * rank,
        strides@.len() == rank,
        forall|x: int| 0 <= x < rank ==> #[trigger] strides@[x] <= isize::MAX,
    ensures
        r matches Some(sl) ==> sl@.len() == kl && forall|i: int|
            0 <= i < kl ==> #[trigger] sl@[i] == linear_offset(df@, i * rank, strides@, rank as int),
        r is None <==> exists|i: int|
            0 <= i < kl && !#[trigger] linear_offset_fits(df@, i * rank, strides@, rank as int),
{
    let mut sl: Vec<isize> = Vec::new();
    let df_len = df.len();
    let mut i: usize = 0;
    while i < kl
        invariant
            df@.len() == kl * rank,
            df_len == df@.len(),
            strides@.len() == rank,
            forall|x: int| 0 <= x < rank ==> #[trigger] strides@[x] <= isize::MAX,
            i <= kl,
            sl@.len() == i,
            forall|a: int|
                0 <= a < i ==> #[trigger] sl@[a] == linear_offset(df@, a * rank, strides@, rank as int),
            forall|a: int| 0 <= a < i ==> #[trigger] linear_offset_fits(df@, a * rank, strides@, rank as int),
        decreases kl - i,
    {
        proof {
            assert(i * rank + rank <= kl * rank) by (nonlinear_arith)
                requires
                    i < kl,
            ;
        }
        let base = i * rank;
        let mut acc: isize = 0;
        let mut r: usize = 0;
        while r < rank
            invariant
                df@.len() == kl * rank,
                df_len == df@.len(),
                strides@.len() == rank,
                forall|x: int| 0 <= x < rank ==> #[trigger] strides@[x] <= isize::MAX,
                base == i * rank,
                i < kl,
                base + rank <= kl * rank,
                r <= rank,
                acc == linear_offset(df@, base as int, strides@, r as int),
                forall|t: int|
                    0 < t <= r ==> {
                        &&& isize::MIN <= #[trigger] linear_offset(df@, base as int, strides@, t) <= isize::MAX
                        &&& isize::MIN <= df@[base + t - 1] * strides@[t - 1] <= isize::MAX
                    },
            decreases rank - r,
        {
            let st = strides[r];
            match df[base + r].checked_mul(st as isize) {
                Some(p) => match acc.checked_add(p) {
                    Some(v) => {
                        acc = v;
                    },
                    None => {
                        proof {
                            let t = (r + 1) as int;
                            assert(!(isize::MIN <= linear_offset(df@, base as int, strides@, t) <= isize::MAX));
                            assert(!linear_offset_fits(df@, (i as int) * (rank as int), strides@, rank as int));
                            assert(0 <= i < kl);
                        }
                        return None;
                    },
                },
                None => {
                    proof {
                        let t = (r + 1) as int;
                        assert(df@[base + t - 1] == df@[base + r]);
                        assert(st as isize == strides@[r as int]);
                        assert(!(isize::MIN <= df@[base + t - 1] * strides@[t - 1] <= isize::MAX));
                        assert(linear_offset(df@, base as int, strides@, t) == linear_offset(
                            df@,
                            base as int,
                            strides@,
                            t,
                        ));
                        let b2 = (i as int) * (rank as int);
                        assert(!linear_offset_fits(df@, b2, strides@, rank as int)) by {
                            if linear_offset_fits(df@, b2, strides@, rank as int) {
                                assert(isize::MIN <= linear_offset(df@, b2, strides@, t) <= isize::MAX);
                                assert(isize::MIN <= df@[b2 + t - 1] * strides@[t - 1] <= isize::MAX);
                            }
                        }
                        assert(0 <= i < kl);
                    }
                    return None;
                },
            }
            r = r + 1;
        }
        proof {
            assert(linear_offset_fits(df@, (i as int) * (rank as int), strides@, rank as int));
        }
        sl.push(acc);
        i = i + 1;
    }
    proof {
        assert forall|a: int| 0 <= a < kl implies #[trigger] linear_offset_fits(df@, a * rank, strides@, rank as int) by {}
    }
    Some(sl)
}

/// Proof that a kernel element index names a coordinate inside the kernel on every axis.
pub proof fn lemma_unravel_bound(dims: Seq<usize>, i: int, r: int)
    requires
        0 <= r < dims.len(),
        forall|x: int| 0 <= x < dims.len() ==> #[trigger] dims[x] >= 1,
        0 <= i,
    ensures
        0 <= unravel_at(dims, i, r) < dims[r],
{
    let d = suffix_prod(dims, r + 1) as int;
    lemma_suffix_prod_pos(dims, r + 1);
    assert(i / d >= 0) by (nonlinear_arith)
        requires
            i >= 0,
            d > 0,
    ;
    lemma_mod_pos_bound(i / d, dims[r] as int);
}

impl Patch {
    /// Displacement table that the geometry of `spec` over `input` gives.
    pub open spec fn data_field_spec(spec: &PoolSpec, input: Seq<usize>) -> Seq<isize> {
        let rank = spec.rank() as int;
        Seq::new(
            suffix_prod(spec.kernel_shape@, 0) * spec.rank(),
            |q: int|
                (unravel_at(spec.kernel_shape@, q / rank, q % rank) * spec.dilations@[q % rank]
                    - spec.pad_before(input, q % rank)) as isize,
        )
    }

    /// `spec` can be resolved over the spatial input shape `input`, with spatial strides
    /// `layout`: the vectors agree in length, every axis is usable, and every table and
    /// offset fits the machine's integers.
    pub open spec fn resolvable(spec: &PoolSpec, input: Seq<usize>, layout: Seq<usize>) -> bool {
        let rank = spec.rank();
        let kl = suffix_prod(spec.kernel_shape@, 0);
        &&& spec.wf_rank()
        &&& input.len() == rank
        &&& layout.len() == rank
        &&& forall|r: int| 0 <= r < rank ==> #[trigger] spec.axis_ok_for(input, r)
        &&& forall|r: int| 0 <= r < rank ==> #[trigger] layout[r] <= isize::MAX
        &&& kl * rank <= usize::MAX
        &&& kl <= usize::MAX
        &&& suffix_prod(spec.output_spatial(input), 0) <= usize::MAX
        &&& forall|i: int|
            0 <= i < kl ==> #[trigger] linear_offset_fits(
                Self::data_field_spec(spec, input),
                i * rank,
                layout,
                rank as int,
            )
    }

    /// Resolves `spec` over the spatial input shape `input`, whose spatial strides in the
    /// input tensor are `layout`.
    pub fn new(spec: &PoolSpec, input: &Vec<usize>, layout: &Vec<usize>) -> (r: Option<Patch>)
        ensures
            r is Some <==> Self::resolvable(spec, input@, layout@),
            r matches Some(p) ==> {
                &&& p.wf()
                &&& p.input_shape@ == input@
                &&& p.input_layout_strides@ == layout@
                &&& p.kernel_shape@ == spec.kernel_shape@
                &&& p.strides@ == spec.strides@
                &&& p.dilations@ == spec.dilations@
                &&& p.output_shape@ == spec.output_spatial(input@)
                &&& p.data_field@ == Self::data_field_spec(spec, input@)
                &&& forall|x: int| 0 <= x < spec.rank() ==> #[trigger] p.pad_before@[x] == spec.pad_before(input@, x)
            },
    {
        let rank = spec.kernel_shape.len();
        if spec.strides.len() != rank || spec.dilations.len() != rank || input.len() != rank
            || layout.len() != rank {
            return None;
        }
        match &spec.padding {
            PaddingSpec::Explicit(b, a) => {
                if b.len() != rank || a.len() != rank {
                    return None;
                }
            },
            _ => {},
        }
        let mut output_shape: Vec<usize> = Vec::new();
        let mut pad_before: Vec<usize> = Vec::new();
        let mut r: usize = 0;
        while r < rank
            invariant
                rank == spec.rank(),
                spec.wf_rank(),
                input@.len() == rank,
                layout@.len() == rank,
                r <= rank,
                output_shape@.len() == r,
                pad_before@.len() == r,
                forall|x: int| 0 <= x < r ==> #[trigger] spec.axis_ok_for(input@, x),
                forall|x: int| 0 <= x < r ==> #[trigger] layout@[x] <= isize::MAX,
                forall|x: int| 0 <= x < r ==> #[trigger] output_shape@[x] == spec.output_dim(input@, x),
                forall|x: int| 0 <= x < r ==> #[trigger] pad_before@[x] == spec.pad_before(input@, x),
            decreases rank - r,
        {
            if layout[r] > isize::MAX as usize {
                proof {
                    assert(!(layout@[r as int] <= isize::MAX));
                }
                return None;
            }
            let pad = spec.padding.axis(r);
            match axis_geometry(input[r], spec.kernel_shape[r], spec.strides[r], spec.dilations[r], pad) {
                Some((out, before)) => {
                    output_shape.push(out);
                    pad_before.push(before);
                },
                None => {
                    proof {
                        assert(!spec.axis_ok_for(input@, r as int));
                    }
                    return None;
                },
            }
            r = r + 1;
        }
        proof {
            assert(output_shape@ =~= spec.output_spatial(input@));
        }
        let kl = match checked_product(&spec.kernel_shape) {
            Some(x) => x,
            None => {
                return None;
            },
        };
        if kl.checked_mul(rank).is_none() {
            return None;
        }
        let n = match checked_product(&output_shape) {
            Some(x) => x,
            None => {
                return None;
            },
        };
        proof {
            assert forall|x: int| 0 <= x < rank implies #[trigger] spec.kernel_shape@[x] >= 1 by {
                assert(spec.axis_ok_for(input@, x));
            }
            assert forall|x: int| 0 <= x < rank implies #[trigger] spec.kernel_shape@[x] * spec.dilations@[x]
                + pad_before@[x] <= isize::MAX by {
                assert(spec.axis_ok_for(input@, x));
                self::lemma_axis_bounds(spec, input@, x);
            }
        }
        let df = kernel_data_field(&spec.kernel_shape, &spec.dilations, &pad_before, kl);
        proof {
            let dfs = Self::data_field_spec(spec, input@);
            assert forall|q: int| 0 <= q < df@.len() implies df@[q] == dfs[q] by {
                let i = q / (rank as int);
                let x = q % (rank as int);
                vstd::arithmetic::div_mod::lemma_fundamental_div_mod(q, rank as int);
                lemma_mod_pos_bound(q, rank as int);
                assert(0 <= i < kl) by (nonlinear_arith)
                    requires
                        q == rank * i + x,
                        0 <= x < rank,
                        0 <= q < kl * rank,
                ;
                assert(i * rank + x == q) by (nonlinear_arith)
                    requires
                        q == rank * i + x,
                ;
                assert(field_at(df@, rank as int, i, x) == unravel_at(spec.kernel_shape@, i, x)
                    * spec.dilations@[x] - pad_before@[x]);
            }
            assert(df@ =~= dfs);
        }
        let sl = match layout_offsets(&df, rank, kl, layout) {
            Some(v) => v,
            None => {
                return None;
            },
        };
        let mut patch = Patch {
            input_shape: input.clone(),
            input_layout_strides: layout.clone(),
            kernel_shape: spec.kernel_shape.clone(),
            strides: spec.strides.clone(),
            dilations: spec.dilations.clone(),
            pad_before,
            output_shape,
            data_field: df,
            standard_layout_data_field: sl,
            padded: false,
        };
        proof {
            assert forall|x: int| 0 <= x < rank implies #[trigger] patch.output_shape@[x] * patch.strides@[x]
                + patch.kernel_shape@[x] * patch.dilations@[x] + patch.input_shape@[x]
                + patch.pad_before@[x] <= isize::MAX by {
                assert(spec.axis_ok_for(input@, x));
                self::lemma_axis_bounds(spec, input@, x);
            }
            assert forall|i: int, x: int| 0 <= i < kl && 0 <= x < rank implies #[trigger] patch.df(i, x)
                == unravel_at(patch.kernel_shape@, i, x) * patch.dilations@[x] - patch.pad_before@[x] by {
                assert(field_at(patch.data_field@, rank as int, i, x) == patch.df(i, x));
            }
        }
        proof {
            assert(patch.input_shape@ =~= input@);
            assert(patch.input_layout_strides@ =~= layout@);
            assert(patch.kernel_shape@ =~= spec.kernel_shape@);
            assert(patch.strides@ =~= spec.strides@);
            assert(patch.dilations@ =~= spec.dilations@);
            assert(patch.wf_tables());
        }
        let padded = patch.padded_flag(n);
        let ghost tables = patch;
        patch.padded = padded;
        proof {
            assert(patch == Patch { padded, ..tables });
            lemma_tables_ignore_padded(tables, padded);
        }
        Some(patch)
    }
}

/// Proof that the table invariant does not depend on the padded flag.
pub proof fn lemma_tables_ignore_padded(p: Patch, padded: bool)
    requires
        p.wf_tables(),
    ensures
        (Patch { padded, ..p }).wf_tables(),
        p.padded_spec() == (Patch { padded, ..p }).padded_spec(),
{
    let q = Patch { padded, ..p };
    assert forall|i: int, r: int| #[trigger] q.df(i, r) == p.df(i, r) by {}
    assert forall|o: int, i: int, r: int| #[trigger] q.reads_outside(o, i, r) == p.reads_outside(o, i, r) by {
        assert(q.df(i, r) == p.df(i, r));
    }
    assert forall|r: int| 0 <= r < q.rank() implies #[trigger] q.output_shape@[r] * q.strides@[r]
        + q.kernel_shape@[r] * q.dilations@[r] + q.input_shape@[r] + q.pad_before@[r] <= isize::MAX by {
        assert(p.output_shape@[r] * p.strides@[r] + p.kernel_shape@[r] * p.dilations@[r] + p.input_shape@[r]
            + p.pad_before@[r] <= isize::MAX);
    }
    if p.padded_spec() {
        let (o, i, r) = choose|o: int, i: int, r: int|
            0 <= i < p.kernel_len() && 0 <= r < p.rank() && #[trigger] p.reads_outside(o, i, r);
        assert(q.reads_outside(o, i, r));
    }
    if q.padded_spec() {
        let (o, i, r) = choose|o: int, i: int, r: int|
            0 <= i < q.kernel_len() && 0 <= r < q.rank() && #[trigger] q.reads_outside(o, i, r);
        assert(p.reads_outside(o, i, r));
    }
}

/// Proof of the bounds that a usable axis gives to the quantities of its geometry.
pub proof fn lemma_axis_bounds(spec: &PoolSpec, input: Seq<usize>, r: int)
    requires
        spec.wf_rank(),
        input.len() == spec.rank(),
        0 <= r < spec.rank(),
        spec.axis_ok_for(input, r),
    ensures
        spec.output_dim(input, r) >= 0,
        spec.pad_before(input, r) >= 0,
        spec.kernel_shape@[r] * spec.dilations@[r] + spec.pad_before(input, r) <= isize::MAX,
        spec.output_dim(input, r) * spec.strides@[r] + spec.kernel_shape@[r] * spec.dilations@[r]
            + input[r] + spec.pad_before(input, r) <= isize::MAX,
{
    let d = input[r] as int;
    let ks = spec.kernel_shape@[r] as int;
    let s = spec.strides@[r] as int;
    let dl = spec.dilations@[r] as int;
    let pad = spec.padding.axis_spec(r);
    let dk = dilated(ks, dl);
    let out = spec.output_dim(input, r);
    let before = spec.pad_before(input, r);
    let (b, a) = match pad {
        AxisPadding::Explicit { before, after } => (before as int, after as int),
        _ => (0int, 0int),
    };
    assert(1 <= dk <= ks * dl) by (nonlinear_arith)
        requires
            dk == (ks - 1) * dl + 1,
            ks >= 1,
            dl >= 1,
    ;
    assert(ks * dl >= 1) by (nonlinear_arith)
        requires
            ks >= 1,
            dl >= 1,
    ;
    if pad is SameUpper || pad is SameLower {
        vstd::arithmetic::div_mod::lemma_fundamental_div_mod(d + s - 1, s);
        lemma_mod_pos_bound(d + s - 1, s);
        assert(out * s <= d + s - 1 && out >= 0) by (nonlinear_arith)
            requires
                d + s - 1 == s * out + (d + s - 1) % s,
                0 <= (d + s - 1) % s < s,
                s >= 1,
                d >= 0,
        ;
        if out > 0 {
            assert((out - 1) * s <= d - 1) by (nonlinear_arith)
                requires
                    out * s <= d + s - 1,
            ;
        }
        let total = if out > 0 && (out - 1) * s + dk > d { (out - 1) * s + dk - d } else { 0 };
        assert(0 <= total < dk);
        assert(0 <= before <= total);
    } else {
        let t = if pad is Explicit { d + b + a } else { d };
        if t >= dk {
            vstd::arithmetic::div_mod::lemma_fundamental_div_mod(t - dk, s);
            lemma_mod_pos_bound(t - dk, s);
            assert(out * s <= t - dk + s && out >= 1) by (nonlinear_arith)
                requires
                    out == (t - dk) / s + 1,
                    t - dk == s * ((t - dk) / s) + (t - dk) % s,
                    0 <= (t - dk) % s < s,
                    s >= 1,
                    t - dk >= 0,
            ;
        } else {
            assert(out == 0);
        }
        assert(before == b);
        assert(out * s <= t + s);
    }
}

} // verus!
