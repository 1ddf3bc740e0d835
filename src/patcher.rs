use crate::packer::{KOutWriter, Packer};
use crate::patch::{linear_offset, Patch};
use crate::shape::{in_lattice, prefix_prod, suffix_prod, unravel_at};
use crate::tensor::{
    as_ints, input_value, lemma_offset_1d, lemma_offset_2d, lemma_offset_bound, offset_of, DataShape,
};
use vstd::prelude::*;

verus! {

/// Spatial input point read by kernel element `kidx` at the `j`-th position of the output
/// lattice `out`, with window strides `strides` and displacement table `df`.
pub open spec fn window_point(out: Seq<usize>, strides: Seq<usize>, df: Seq<isize>, kidx: int, j: int) -> Seq<int> {
    Seq::new(
        out.len(),
        |r: int| unravel_at(out, j, r) * strides[r] + df[kidx * out.len() + r],
    )
}

/// Entry (`kk`, `j`) of the dense im2col matrix of batch `b` and group `g`: row `kk` is
/// channel `kk / kv` of the group and kernel element `kk % kv`, column `j` the window
/// position.
pub open spec fn dense_entry<T>(
    out: Seq<usize>,
    strides: Seq<usize>,
    df: Seq<isize>,
    kv: nat,
    cpg: nat,
    ds: DataShape,
    data: Seq<T>,
    b: int,
    g: int,
    kk: int,
    j: int,
    pad: T,
) -> T {
    input_value(ds, data, b, g * cpg + kk / (kv as int), window_point(out, strides, df, kk % (kv as int), j), pad)
}

/// The dense `k` by `n` im2col matrix of batch `b` and group `g`, row-major.
pub open spec fn dense_matrix<T>(
    out: Seq<usize>,
    strides: Seq<usize>,
    df: Seq<isize>,
    kv: nat,
    cpg: nat,
    k: nat,
    n: nat,
    ds: DataShape,
    data: Seq<T>,
    b: int,
    g: int,
    pad: T,
) -> Seq<T> {
    Seq::new(k * n, |q: int| dense_entry(out, strides, df, kv, cpg, ds, data, b, g, q / (n as int), q % (n as int), pad))
}

/// Strategy that fills the packed matrix of one batch element and one group.
#[derive(Clone, Copy, Debug, PartialEq, Eq, Structural)]
pub enum Patcher {
    Generic,
    Valid1d,
    Valid2d,
    Padded2d,
}

/// The strategy for a patch of `rank` spatial axes, padded or not.
pub open spec fn select_patcher(rank: nat, padded: bool) -> Patcher {
    if rank == 2 && !padded {
        Patcher::Valid2d
    } else if rank == 2 {
        Patcher::Padded2d
    } else if rank == 1 && !padded {
        Patcher::Valid1d
    } else {
        Patcher::Generic
    }
}

/// Geometry of an im2col over one concrete input shape.
#[derive(Clone, Debug)]
pub struct ConcreteGeometry {
    pub patch: Patch,
    pub k: usize,
    pub n: usize,
    pub b_pack: Packer,
    pub ci_per_group: usize,
    pub patcher: Patcher,
}

impl ConcreteGeometry {
    pub open spec fn kernel_volume(&self) -> nat {
        self.patch.kernel_len()
    }

    pub open spec fn wf(&self, ds: DataShape) -> bool {
        &&& ds.wf()
        &&& self.patch.wf()
        &&& self.patch.rank() == ds.rank()
        &&& self.patch.input_shape@ == ds.hw_dims_spec()
        &&& self.patch.input_layout_strides@ == ds.hw_strides_spec()
        &&& forall|r: int| 0 <= r < ds.rank() ==> #[trigger] ds.stride(ds.hw_axis(r)) <= usize::MAX
        &&& self.k == self.kernel_volume() * self.ci_per_group
        &&& self.n == self.patch.output_len()
        &&& self.k * self.n <= usize::MAX
        &&& self.b_pack.wf()
        &&& self.b_pack.k == self.k
        &&& self.b_pack.len_spec(self.n as nat) <= usize::MAX
        &&& self.patcher == select_patcher(self.patch.rank(), self.patch.padded)
    }

    /// Spatial input point read by kernel element `kidx` at the `j`-th window position.
    pub open spec fn window_coords(&self, kidx: int, j: int) -> Seq<int> {
        window_point(self.patch.output_shape@, self.patch.strides@, self.patch.data_field@, kidx, j)
    }

    /// Entry (`kk`, `j`) of the dense matrix of batch `b` and group `g`.
    pub open spec fn dense_at<T>(&self, ds: DataShape, data: Seq<T>, b: int, g: int, kk: int, j: int, pad: T) -> T {
        dense_entry(
            self.patch.output_shape@,
            self.patch.strides@,
            self.patch.data_field@,
            self.kernel_volume(),
            self.ci_per_group as nat,
            ds,
            data,
            b,
            g,
            kk,
            j,
            pad,
        )
    }

    pub open spec fn dense<T>(&self, ds: DataShape, data: Seq<T>, b: int, g: int, pad: T) -> Seq<T> {
        dense_matrix(
            self.patch.output_shape@,
            self.patch.strides@,
            self.patch.data_field@,
            self.kernel_volume(),
            self.ci_per_group as nat,
            self.k as nat,
            self.n as nat,
            ds,
            data,
            b,
            g,
            pad,
        )
    }

    /// The packed matrix of batch `b` and group `g`: windows read `pad` outside the input,
    /// and `fill` stands in the panels only where the matrix has no rows.
    pub open spec fn packed_block<T>(&self, ds: DataShape, data: Seq<T>, b: int, g: int, pad: T, fill: T) -> Seq<T> {
        self.b_pack.packed(self.dense(ds, data, b, g, pad), self.n as nat, true, fill)
    }

    /// What a patcher may assume of its input: a well-formed geometry over a tensor of
    /// shape `ds`, a batch element and a group inside it.
    pub open spec fn patch_inputs_ok<T>(&self, ds: DataShape, data: Seq<T>, b: int, g: int) -> bool {
        &&& self.wf(ds)
        &&& data.len() == prefix_prod(ds.shape@, ds.shape@.len() as int)
        &&& 0 <= b < ds.n_spec()
        &&& 0 <= g
        &&& (g + 1) * self.ci_per_group <= ds.c_spec()
    }
}

/// Proof that the `q`-th value written in `k`-outer order is entry (`ci * kv + kidx`, `j`).
pub(crate) proof fn lemma_dense_position(n: int, kv: int, cpg: int, ci: int, kidx: int, j: int)
    requires
        0 <= ci < cpg,
        0 <= kidx < kv,
        0 <= j < n,
    ensures
        0 <= (ci * kv + kidx) * n + j < kv * cpg * n,
        ((ci * kv + kidx) * n + j) / n == ci * kv + kidx,
        ((ci * kv + kidx) * n + j) % n == j,
        (ci * kv + kidx) / kv == ci,
        (ci * kv + kidx) % kv == kidx,
        (ci * kv + kidx) * n + j + 1 <= kv * cpg * n,
{
    crate::matrix::lemma_cell_index(cpg, kv, ci, kidx);
    crate::matrix::lemma_cell_index(cpg * kv, n, ci * kv + kidx, j);
    assert(cpg * kv * n == kv * cpg * n) by (nonlinear_arith);
}

impl ConcreteGeometry {
    /// Proof that the `j`-th window position of a two-dimensional patch is row `j / Wo`,
    /// column `j % Wo` of the output.
    pub(crate) proof fn lemma_window_2d(&self, kidx: int, yo: int, xo: int)
        requires
            self.patch.wf(),
            self.patch.rank() == 2,
            0 <= yo < self.patch.output_shape@[0],
            0 <= xo < self.patch.output_shape@[1],
        ensures
            self.window_coords(kidx, yo * self.patch.output_shape@[1] + xo) =~= seq![
                yo * self.patch.strides@[0] + self.patch.df(kidx, 0),
                xo * self.patch.strides@[1] + self.patch.df(kidx, 1),
            ],
    {
        let out = self.patch.output_shape@;
        let wo = out[1] as int;
        let j = yo * wo + xo;
        assert(suffix_prod(out, 2) == 1);
        assert(suffix_prod(out, 1) == (out[1] as nat) * suffix_prod(out, 2));
        assert(suffix_prod(out, 1) == wo);
        vstd::arithmetic::div_mod::lemma_fundamental_div_mod_converse(j, wo, yo, xo);
        vstd::arithmetic::div_mod::lemma_fundamental_div_mod_converse(yo, out[0] as int, 0, yo);
        vstd::arithmetic::div_mod::lemma_fundamental_div_mod_converse(j, 1, j, 0);
    }

    /// Proof that the `j`-th window position of a one-dimensional patch is `j`.
    pub(crate) proof fn lemma_window_1d(&self, kidx: int, xo: int)
        requires
            self.patch.wf(),
            self.patch.rank() == 1,
            0 <= xo < self.patch.output_shape@[0],
        ensures
            self.window_coords(kidx, xo) =~= seq![xo * self.patch.strides@[0] + self.patch.df(kidx, 0)],
    {
        let out = self.patch.output_shape@;
        assert(suffix_prod(out, 1) == 1);
        vstd::arithmetic::div_mod::lemma_fundamental_div_mod_converse(xo, 1, xo, 0);
        vstd::arithmetic::div_mod::lemma_fundamental_div_mod_converse(xo, out[0] as int, 0, xo);
    }

    /// Row `kk` of the dense matrix of batch `b` and group `g`.
    pub open spec fn dense_row<T>(&self, ds: DataShape, data: Seq<T>, b: int, g: int, kk: int, pad: T) -> Seq<T> {
        Seq::new(self.n as nat, |j: int| self.dense_at(ds, data, b, g, kk, j, pad))
    }
}

impl Patcher {
    /// Row `ci * kernel_volume + kidx` of an unpadded two-dimensional patch: every window
    /// lies inside the input, so each value is read at the kernel element's offset plus
    /// the window origin's, with no bound check.
    fn valid_2d_row<T: Copy>(
        geo: &ConcreteGeometry,
        ds: &DataShape,
        data: &Vec<T>,
        b: usize,
        g: usize,
        ci: usize,
        kidx: usize,
        base: usize,
        w: &mut KOutWriter<T>,
        pad: Ghost<T>,
    )
        requires
            geo.patch_inputs_ok(*ds, data@, b as int, g as int),
            geo.patch.rank() == 2,
            !geo.patch.padded,
            ci < geo.ci_per_group,
            kidx < geo.kernel_volume(),
            (geo.patch.input_shape@[0] >= 1 && geo.patch.input_shape@[1] >= 1) ==> base == ds.offset(
                b as int,
                g * geo.ci_per_group + ci,
                seq![0int, 0int],
            ),
        ensures
            final(w).packer == old(w).packer,
            final(w).mn == old(w).mn,
            final(w).written@ == old(w).written@ + geo.dense_row(
                *ds,
                data@,
                b as int,
                g as int,
                ci * geo.kernel_volume() + kidx,
                pad@,
            ),
    {
        let ghost kv = geo.kernel_volume() as int;
        let ghost kk = ci * kv + kidx;
        let ghost chan = g * geo.ci_per_group + ci;
        let ghost start = w.written@;
        let ghost row = geo.dense_row(*ds, data@, b as int, g as int, kk, pad@);
        proof {
            lemma_dense_position(1, kv, geo.ci_per_group as int, ci as int, kidx as int, 0);
            assert(chan < ds.c_spec()) by (nonlinear_arith)
                requires
                    (g + 1) * geo.ci_per_group <= ds.c_spec(),
                    ci < geo.ci_per_group,
                    chan == g * geo.ci_per_group + ci,
            ;
            assert(geo.patch.output_len() == geo.patch.output_shape@[0] * geo.patch.output_shape@[1]) by {
                let out = geo.patch.output_shape@;
                assert(suffix_prod(out, 2) == 1);
                assert(suffix_prod(out, 1) == (out[1] as nat) * suffix_prod(out, 2));
                assert(suffix_prod(out, 0) == (out[0] as nat) * suffix_prod(out, 1));
            }
            let lo = linear_offset(geo.patch.data_field@, kidx * 2, geo.patch.input_layout_strides@, 2);
            let dfs = geo.patch.data_field@;
            let ls = geo.patch.input_layout_strides@;
            assert(linear_offset(dfs, kidx * 2, ls, 0) == 0);
            assert(linear_offset(dfs, kidx * 2, ls, 1) == linear_offset(dfs, kidx * 2, ls, 0) + dfs[kidx * 2] * ls[0]);
            assert(linear_offset(dfs, kidx * 2, ls, 2) == linear_offset(dfs, kidx * 2, ls, 1) + dfs[kidx * 2 + 1] * ls[1]);
            assert(ls[0] == ds.stride(ds.hw_axis(0)));
            assert(ls[1] == ds.stride(ds.hw_axis(1)));
            assert(lo == geo.patch.df(kidx as int, 0) * ds.stride(ds.hw_axis(0)) + geo.patch.df(kidx as int, 1)
                * ds.stride(ds.hw_axis(1)));
        }
        let ho = geo.patch.output_shape[0];
        let wo = geo.patch.output_shape[1];
        let sy = geo.patch.strides[0];
        let sx = geo.patch.strides[1];
        let hs = geo.patch.input_layout_strides[0];
        let ws = geo.patch.input_layout_strides[1];
        let koff = #[verifier::truncate] (geo.patch.standard_layout_data_field[kidx] as usize);
        let ghost dy = geo.patch.df(kidx as int, 0);
        let ghost dx = geo.patch.df(kidx as int, 1);
        let data_len = data.len();
        let mut yo: usize = 0;
        while yo < ho
            invariant
                geo.patch_inputs_ok(*ds, data@, b as int, g as int),
                geo.patch.rank() == 2,
                !geo.patch.padded,
                kidx < geo.kernel_volume(),
                kv == geo.kernel_volume(),
                kk == ci * kv + kidx,
                kk / kv == ci,
                kk % kv == kidx,
                chan == g * geo.ci_per_group + ci,
                chan < ds.c_spec(),
                (geo.patch.input_shape@[0] >= 1 && geo.patch.input_shape@[1] >= 1) ==> base == ds.offset(
                    b as int,
                    chan,
                    seq![0int, 0int],
                ),
                row == geo.dense_row(*ds, data@, b as int, g as int, kk, pad@),
                geo.n == ho * wo,
                ho == geo.patch.output_shape@[0],
                wo == geo.patch.output_shape@[1],
                sy == geo.patch.strides@[0],
                sx == geo.patch.strides@[1],
                dy == geo.patch.df(kidx as int, 0),
                dx == geo.patch.df(kidx as int, 1),
                koff as int == (geo.patch.standard_layout_data_field@[kidx as int] as usize) as int,
                geo.patch.standard_layout_data_field@[kidx as int] == dy * hs + dx * ws,
                hs == ds.stride(ds.hw_axis(0)),
                ws == ds.stride(ds.hw_axis(1)),
                data_len == data@.len(),
                w.packer == old(w).packer,
                w.mn == old(w).mn,
                yo <= ho,
                w.written@ == start + row.subrange(0, yo * wo),
            decreases ho - yo,
        {
            proof {
                assert((yo + 1) * wo <= ho * wo) by (nonlinear_arith)
                    requires
                        yo < ho,
                ;
                assert(yo * wo + wo == (yo + 1) * wo) by (nonlinear_arith);
            }
            let mut xo: usize = 0;
            while xo < wo
                invariant
                    geo.patch_inputs_ok(*ds, data@, b as int, g as int),
                    geo.patch.rank() == 2,
                    !geo.patch.padded,
                    kidx < geo.kernel_volume(),
                    kv == geo.kernel_volume(),
                    kk == ci * kv + kidx,
                    kk / kv == ci,
                    kk % kv == kidx,
                    chan == g * geo.ci_per_group + ci,
                    chan < ds.c_spec(),
                    (geo.patch.input_shape@[0] >= 1 && geo.patch.input_shape@[1] >= 1) ==> base == ds.offset(
                        b as int,
                        chan,
                        seq![0int, 0int],
                    ),
                    row == geo.dense_row(*ds, data@, b as int, g as int, kk, pad@),
                    geo.n == ho * wo,
                    ho == geo.patch.output_shape@[0],
                    wo == geo.patch.output_shape@[1],
                    sy == geo.patch.strides@[0],
                    sx == geo.patch.strides@[1],
                    dy == geo.patch.df(kidx as int, 0),
                    dx == geo.patch.df(kidx as int, 1),
                    koff as int == (geo.patch.standard_layout_data_field@[kidx as int] as usize) as int,
                    geo.patch.standard_layout_data_field@[kidx as int] == dy * hs + dx * ws,
                    hs == ds.stride(ds.hw_axis(0)),
                    ws == ds.stride(ds.hw_axis(1)),
                    data_len == data@.len(),
                    yo < ho,
                    (yo + 1) * wo <= ho * wo,
                    yo * wo + wo == (yo + 1) * wo,
                    w.packer == old(w).packer,
                    w.mn == old(w).mn,
                    xo <= wo,
                    w.written@ == start + row.subrange(0, yo * wo + xo),
                decreases wo - xo,
            {
                let ghost j = yo * wo + xo;
                let ghost y = yo * sy + dy;
                let ghost x = xo * sx + dx;
                proof {
                    geo.lemma_window_2d(kidx as int, yo as int, xo as int);
                    assert(j < geo.n);
                    assert(geo.patch.output_len() > 0);
                    assert(!geo.patch.reads_outside(yo as int, kidx as int, 0));
                    assert(!geo.patch.reads_outside(xo as int, kidx as int, 1));
                    assert(!geo.patch.reads_outside(0, kidx as int, 0));
                    assert(!geo.patch.reads_outside(0, kidx as int, 1));
                    assert(0 <= dy && 0 <= dx);
                    assert(row[j] == geo.dense_at(*ds, data@, b as int, g as int, kk, j, pad@));
                    assert(geo.window_coords(kidx as int, j) =~= seq![y, x]);
                    assert(in_lattice(ds.hw_dims_spec(), seq![y, x]));
                    lemma_offset_2d(*ds, b as int, chan, y, x);
                    lemma_offset_bound(*ds, data_len as int, b as int, chan, seq![y, x]);
                    assert(0 <= dy * hs && 0 <= dx * ws) by (nonlinear_arith)
                        requires
                            0 <= dy,
                            0 <= dx,
                    ;
                    assert(0 <= (yo * sy) * hs && 0 <= (xo * sx) * ws) by (nonlinear_arith);
                    assert(y * hs == (yo * sy) * hs + dy * hs) by (nonlinear_arith)
                        requires
                            y == yo * sy + dy,
                    ;
                    assert(x * ws == (xo * sx) * ws + dx * ws) by (nonlinear_arith)
                        requires
                            x == xo * sx + dx,
                    ;
                    assert(0 <= yo * sy <= y && 0 <= xo * sx <= x);
                    assert((yo * sy) * hs <= y * hs && (xo * sx) * ws <= x * ws) by (nonlinear_arith)
                        requires
                            0 <= yo * sy <= y,
                            0 <= xo * sx <= x,
                    ;
                }
                let v = data[base + koff + (yo * sy) * hs + (xo * sx) * ws];
                w.write(v);
                proof {
                    assert(w.written@ =~= start + row.subrange(0, yo * wo + xo + 1));
                }
                xo = xo + 1;
            }
            yo = yo + 1;
        }
        proof {
            assert(row.subrange(0, ho * wo) =~= row);
        }
    }

    /// Row `ci * kernel_volume + kidx` of a two-dimensional patch, checking each coordinate
    /// against the input and writing `pad` outside. `base` is the offset of the channel's
    /// origin, when the input has one.
    fn padded_2d_row<T: Copy>(
        geo: &ConcreteGeometry,
        ds: &DataShape,
        data: &Vec<T>,
        b: usize,
        g: usize,
        ci: usize,
        kidx: usize,
        base: usize,
        pad: T,
        w: &mut KOutWriter<T>,
    )
        requires
            geo.patch_inputs_ok(*ds, data@, b as int, g as int),
            geo.patch.rank() == 2,
            ci < geo.ci_per_group,
            kidx < geo.kernel_volume(),
            (geo.patch.input_shape@[0] >= 1 && geo.patch.input_shape@[1] >= 1) ==> base == ds.offset(
                b as int,
                g * geo.ci_per_group + ci,
                seq![0int, 0int],
            ),
        ensures
            final(w).packer == old(w).packer,
            final(w).mn == old(w).mn,
            final(w).written@ == old(w).written@ + geo.dense_row(
                *ds,
                data@,
                b as int,
                g as int,
                ci * geo.kernel_volume() + kidx,
                pad,
            ),
    {
        let ghost kv = geo.kernel_volume() as int;
        let ghost kk = ci * kv + kidx;
        let ghost chan = g * geo.ci_per_group + ci;
        let ghost start = w.written@;
        let ghost row = geo.dense_row(*ds, data@, b as int, g as int, kk, pad);
        proof {
            lemma_dense_position(1, kv, geo.ci_per_group as int, ci as int, kidx as int, 0);
            assert(chan < ds.c_spec()) by (nonlinear_arith)
                requires
                    (g + 1) * geo.ci_per_group <= ds.c_spec(),
                    ci < geo.ci_per_group,
                    chan == g * geo.ci_per_group + ci,
            ;
            crate::matrix::lemma_cell_index(kv, 2, kidx as int, 0);
            crate::matrix::lemma_cell_index(kv, 2, kidx as int, 1);
            assert(geo.patch.output_len() == geo.patch.output_shape@[0] * geo.patch.output_shape@[1]) by {
                let out = geo.patch.output_shape@;
                assert(suffix_prod(out, 2) == 1);
                assert(suffix_prod(out, 1) == (out[1] as nat) * suffix_prod(out, 2));
                assert(suffix_prod(out, 0) == (out[0] as nat) * suffix_prod(out, 1));
            }
            assert(geo.patch.output_shape@[0] * geo.patch.strides@[0] + geo.patch.kernel_shape@[0]
                * geo.patch.dilations@[0] + geo.patch.input_shape@[0] + geo.patch.pad_before@[0] <= isize::MAX);
            assert(geo.patch.output_shape@[1] * geo.patch.strides@[1] + geo.patch.kernel_shape@[1]
                * geo.patch.dilations@[1] + geo.patch.input_shape@[1] + geo.patch.pad_before@[1] <= isize::MAX);
            crate::patch::lemma_unravel_bound(geo.patch.kernel_shape@, kidx as int, 0);
            crate::patch::lemma_unravel_bound(geo.patch.kernel_shape@, kidx as int, 1);
            let kc0 = unravel_at(geo.patch.kernel_shape@, kidx as int, 0);
            let kc1 = unravel_at(geo.patch.kernel_shape@, kidx as int, 1);
            assert(geo.patch.df(kidx as int, 0) == kc0 * geo.patch.dilations@[0] - geo.patch.pad_before@[0]);
            assert(geo.patch.df(kidx as int, 1) == kc1 * geo.patch.dilations@[1] - geo.patch.pad_before@[1]);
            assert(0 <= kc0 * geo.patch.dilations@[0] <= geo.patch.kernel_shape@[0] * geo.patch.dilations@[0])
                by (nonlinear_arith)
                requires
                    0 <= kc0 < geo.patch.kernel_shape@[0],
            ;
            assert(0 <= kc1 * geo.patch.dilations@[1] <= geo.patch.kernel_shape@[1] * geo.patch.dilations@[1])
                by (nonlinear_arith)
                requires
                    0 <= kc1 < geo.patch.kernel_shape@[1],
            ;
        }
        let ho = geo.patch.output_shape[0];
        let wo = geo.patch.output_shape[1];
        let sy = geo.patch.strides[0];
        let sx = geo.patch.strides[1];
        let df_len = geo.patch.data_field.len();
        let dy = geo.patch.data_field[kidx * 2];
        let dx = geo.patch.data_field[kidx * 2 + 1];
        let h = geo.patch.input_shape[0];
        let wd = geo.patch.input_shape[1];
        let hs = geo.patch.input_layout_strides[0];
        let ws = geo.patch.input_layout_strides[1];
        let data_len = data.len();
        proof {
            assert(dy == geo.patch.df(kidx as int, 0));
            assert(dx == geo.patch.df(kidx as int, 1));
            assert(hs == ds.stride(ds.hw_axis(0)));
            assert(ws == ds.stride(ds.hw_axis(1)));
            assert(h == ds.hw_dims_spec()[0]);
            assert(wd == ds.hw_dims_spec()[1]);
        }
        let mut yo: usize = 0;
        while yo < ho
            invariant
                geo.patch_inputs_ok(*ds, data@, b as int, g as int),
                geo.patch.rank() == 2,
                ci < geo.ci_per_group,
                kidx < geo.kernel_volume(),
                kv == geo.kernel_volume(),
                kk == ci * kv + kidx,
                kk / kv == ci,
                kk % kv == kidx,
                chan == g * geo.ci_per_group + ci,
                chan < ds.c_spec(),
                (h >= 1 && wd >= 1) ==> base == ds.offset(b as int, chan, seq![0int, 0int]),
                row == geo.dense_row(*ds, data@, b as int, g as int, kk, pad),
                geo.n == ho * wo,
                ho == geo.patch.output_shape@[0],
                wo == geo.patch.output_shape@[1],
                sy == geo.patch.strides@[0],
                sx == geo.patch.strides@[1],
                dy == geo.patch.df(kidx as int, 0),
                dx == geo.patch.df(kidx as int, 1),
                h == ds.hw_dims_spec()[0],
                wd == ds.hw_dims_spec()[1],
                hs == ds.stride(ds.hw_axis(0)),
                ws == ds.stride(ds.hw_axis(1)),
                data_len == data@.len(),
                ho * sy + geo.patch.kernel_shape@[0] * geo.patch.dilations@[0] + h + geo.patch.pad_before@[0] <= isize::MAX,
                wo * sx + geo.patch.kernel_shape@[1] * geo.patch.dilations@[1] + wd + geo.patch.pad_before@[1] <= isize::MAX,
                -(geo.patch.pad_before@[0] as int) <= dy <= geo.patch.kernel_shape@[0] * geo.patch.dilations@[0],
                -(geo.patch.pad_before@[1] as int) <= dx <= geo.patch.kernel_shape@[1] * geo.patch.dilations@[1],
                w.packer == old(w).packer,
                w.mn == old(w).mn,
                yo <= ho,
                w.written@ == start + row.subrange(0, yo * wo),
            decreases ho - yo,
        {
            proof {
                assert(yo * sy <= ho * sy) by (nonlinear_arith)
                    requires
                        yo < ho,
                ;
                assert((yo + 1) * wo <= ho * wo) by (nonlinear_arith)
                    requires
                        yo < ho,
                ;
                assert(yo * wo + wo == (yo + 1) * wo) by (nonlinear_arith);
            }
            let y = (yo * sy) as isize + dy;
            let inside_y = y >= 0 && y < h as isize;
            let mut xo: usize = 0;
            while xo < wo
                invariant
                    geo.patch_inputs_ok(*ds, data@, b as int, g as int),
                    geo.patch.rank() == 2,
                    kv == geo.kernel_volume(),
                    kk == ci * kv + kidx,
                    kk / kv == ci,
                    kk % kv == kidx,
                    chan == g * geo.ci_per_group + ci,
                    chan < ds.c_spec(),
                    (h >= 1 && wd >= 1) ==> base == ds.offset(b as int, chan, seq![0int, 0int]),
                    row == geo.dense_row(*ds, data@, b as int, g as int, kk, pad),
                    geo.n == ho * wo,
                    ho == geo.patch.output_shape@[0],
                    wo == geo.patch.output_shape@[1],
                    sy == geo.patch.strides@[0],
                    sx == geo.patch.strides@[1],
                    dy == geo.patch.df(kidx as int, 0),
                    dx == geo.patch.df(kidx as int, 1),
                    h == ds.hw_dims_spec()[0],
                    wd == ds.hw_dims_spec()[1],
                    hs == ds.stride(ds.hw_axis(0)),
                    ws == ds.stride(ds.hw_axis(1)),
                    data_len == data@.len(),
                    wo * sx + geo.patch.kernel_shape@[1] * geo.patch.dilations@[1] + wd + geo.patch.pad_before@[1] <= isize::MAX,
                    -(geo.patch.pad_before@[1] as int) <= dx <= geo.patch.kernel_shape@[1] * geo.patch.dilations@[1],
                    y == yo * sy + dy,
                    inside_y == (0 <= y < h),
                    yo < ho,
                    (yo + 1) * wo <= ho * wo,
                    yo * wo + wo == (yo + 1) * wo,
                    w.packer == old(w).packer,
                    w.mn == old(w).mn,
                    xo <= wo,
                    w.written@ == start + row.subrange(0, yo * wo + xo),
                decreases wo - xo,
            {
                proof {
                    assert(xo * sx <= wo * sx) by (nonlinear_arith)
                        requires
                            xo < wo,
                    ;
                }
                let x = (xo * sx) as isize + dx;
                let ghost j = yo * wo + xo;
                proof {
                    geo.lemma_window_2d(kidx as int, yo as int, xo as int);
                    assert(j < geo.n);
                    assert(row[j] == geo.dense_at(*ds, data@, b as int, g as int, kk, j, pad));
                    assert(geo.window_coords(kidx as int, j) =~= seq![y as int, x as int]);
                    assert(row[j] == input_value(*ds, data@, b as int, chan, seq![y as int, x as int], pad));
                }
                let v = if inside_y && x >= 0 && x < wd as isize {
                    proof {
                        lemma_offset_2d(*ds, b as int, chan, y as int, x as int);
                        assert(in_lattice(ds.hw_dims_spec(), seq![y as int, x as int]));
                        lemma_offset_bound(*ds, data_len as int, b as int, chan, seq![y as int, x as int]);
                        assert(0 <= (y as usize) * hs) by (nonlinear_arith)
                            requires
                                y >= 0,
                        ;
                        assert(0 <= (x as usize) * ws) by (nonlinear_arith)
                            requires
                                x >= 0,
                        ;
                    }
                    data[base + (y as usize) * hs + (x as usize) * ws]
                } else {
                    proof {
                        assert(!in_lattice(ds.hw_dims_spec(), seq![y as int, x as int]));
                    }
                    pad
                };
                w.write(v);
                proof {
                    assert(w.written@ =~= start + row.subrange(0, yo * wo + xo + 1));
                }
                xo = xo + 1;
            }
            yo = yo + 1;
        }
        proof {
            assert(row.subrange(0, ho * wo) =~= row);
        }
    }

    /// Row `ci * kernel_volume + kidx` of an unpadded one-dimensional patch.
    fn valid_1d_row<T: Copy>(
        geo: &ConcreteGeometry,
        ds: &DataShape,
        data: &Vec<T>,
        b: usize,
        g: usize,
        ci: usize,
        kidx: usize,
        base: usize,
        w: &mut KOutWriter<T>,
        pad: Ghost<T>,
    )
        requires
            geo.patch_inputs_ok(*ds, data@, b as int, g as int),
            geo.patch.rank() == 1,
            !geo.patch.padded,
            ci < geo.ci_per_group,
            kidx < geo.kernel_volume(),
            geo.patch.input_shape@[0] >= 1 ==> base == ds.offset(b as int, g * geo.ci_per_group + ci, seq![0int]),
        ensures
            final(w).packer == old(w).packer,
            final(w).mn == old(w).mn,
            final(w).written@ == old(w).written@ + geo.dense_row(
                *ds,
                data@,
                b as int,
                g as int,
                ci * geo.kernel_volume() + kidx,
                pad@,
            ),
    {
        let ghost kv = geo.kernel_volume() as int;
        let ghost kk = ci * kv + kidx;
        let ghost chan = g * geo.ci_per_group + ci;
        let ghost start = w.written@;
        let ghost row = geo.dense_row(*ds, data@, b as int, g as int, kk, pad@);
        proof {
            lemma_dense_position(1, kv, geo.ci_per_group as int, ci as int, kidx as int, 0);
            assert(chan < ds.c_spec()) by (nonlinear_arith)
                requires
                    (g + 1) * geo.ci_per_group <= ds.c_spec(),
                    ci < geo.ci_per_group,
                    chan == g * geo.ci_per_group + ci,
            ;
            assert(geo.patch.output_len() == geo.patch.output_shape@[0]) by {
                let out = geo.patch.output_shape@;
                assert(suffix_prod(out, 1) == 1);
                assert(suffix_prod(out, 0) == (out[0] as nat) * suffix_prod(out, 1));
            }
            let dfs = geo.patch.data_field@;
            let ls = geo.patch.input_layout_strides@;
            assert(linear_offset(dfs, kidx * 1, ls, 0) == 0);
            assert(linear_offset(dfs, kidx * 1, ls, 1) == linear_offset(dfs, kidx * 1, ls, 0) + dfs[kidx * 1] * ls[0]);
            assert(ls[0] == ds.stride(ds.hw_axis(0)));
        }
        let wo = geo.patch.output_shape[0];
        let sx = geo.patch.strides[0];
        let hs = geo.patch.input_layout_strides[0];
        let koff = #[verifier::truncate] (geo.patch.standard_layout_data_field[kidx] as usize);
        let ghost dx = geo.patch.df(kidx as int, 0);
        let data_len = data.len();
        let mut xo: usize = 0;
        while xo < wo
            invariant
                geo.patch_inputs_ok(*ds, data@, b as int, g as int),
                geo.patch.rank() == 1,
                !geo.patch.padded,
                kidx < geo.kernel_volume(),
                kv == geo.kernel_volume(),
                kk == ci * kv + kidx,
                kk / kv == ci,
                kk % kv == kidx,
                chan == g * geo.ci_per_group + ci,
                chan < ds.c_spec(),
                geo.patch.input_shape@[0] >= 1 ==> base == ds.offset(b as int, chan, seq![0int]),
                row == geo.dense_row(*ds, data@, b as int, g as int, kk, pad@),
                geo.n == wo,
                wo == geo.patch.output_shape@[0],
                sx == geo.patch.strides@[0],
                dx == geo.patch.df(kidx as int, 0),
                koff as int == (geo.patch.standard_layout_data_field@[kidx as int] as usize) as int,
                geo.patch.standard_layout_data_field@[kidx as int] == dx * hs,
                hs == ds.stride(ds.hw_axis(0)),
                data_len == data@.len(),
                w.packer == old(w).packer,
                w.mn == old(w).mn,
                xo <= wo,
                w.written@ == start + row.subrange(0, xo as int),
            decreases wo - xo,
        {
            let ghost x = xo * sx + dx;
            proof {
                geo.lemma_window_1d(kidx as int, xo as int);
                assert(geo.patch.output_len() > 0);
                assert(!geo.patch.reads_outside(xo as int, kidx as int, 0));
                assert(!geo.patch.reads_outside(0, kidx as int, 0));
                assert(0 <= dx);
                assert(row[xo as int] == geo.dense_at(*ds, data@, b as int, g as int, kk, xo as int, pad@));
                assert(geo.window_coords(kidx as int, xo as int) =~= seq![x]);
                assert(in_lattice(ds.hw_dims_spec(), seq![x]));
                lemma_offset_1d(*ds, b as int, chan, x);
                lemma_offset_bound(*ds, data_len as int, b as int, chan, seq![x]);
                assert(0 <= dx * hs) by (nonlinear_arith)
                    requires
                        0 <= dx,
                ;
                assert(0 <= (xo * sx) * hs) by (nonlinear_arith);
                assert(x * hs == (xo * sx) * hs + dx * hs) by (nonlinear_arith)
                    requires
                        x == xo * sx + dx,
                ;
            }
            let v = data[base + koff + (xo * sx) * hs];
            w.write(v);
            proof {
                assert(w.written@ =~= start + row.subrange(0, xo + 1));
            }
            xo = xo + 1;
        }
        proof {
            assert(row.subrange(0, wo as int) =~= row);
        }
    }

    /// Fills the packed matrix row by row with the strategy `which`.
    fn fill_by_rows<T: Copy>(
        geo: &ConcreteGeometry,
        ds: &DataShape,
        data: &Vec<T>,
        b: usize,
        g: usize,
        pad: T,
        fill: T,
        which: Patcher,
    ) -> (r: Vec<T>)
        requires
            geo.patch_inputs_ok(*ds, data@, b as int, g as int),
            which == Patcher::Padded2d ==> geo.patch.rank() == 2,
            which == Patcher::Valid2d ==> geo.patch.rank() == 2 && !geo.patch.padded,
            which == Patcher::Valid1d ==> geo.patch.rank() == 1 && !geo.patch.padded,
            which != Patcher::Generic,
        ensures
            r@ == geo.packed_block(*ds, data@, b as int, g as int, pad, fill),
    {
        let n = geo.n;
        let kv = geo.patch.standard_layout_data_field.len();
        let cpg = geo.ci_per_group;
        let rank = geo.patch.kernel_shape.len();
        let data_len = data.len();
        let ghost dense = geo.dense(*ds, data@, b as int, g as int, pad);
        let hw = ds.hw_dims();
        let mut has_origin = true;
        let mut r: usize = 0;
        while r < rank
            invariant
                hw@ == ds.hw_dims_spec(),
                rank == ds.rank(),
                r <= rank,
                has_origin == forall|x: int| 0 <= x < r ==> #[trigger] hw@[x] >= 1,
            decreases rank - r,
        {
            if hw[r] == 0 {
                has_origin = false;
            }
            r = r + 1;
        }
        let mut zeros: Vec<usize> = Vec::new();
        let mut r: usize = 0;
        while r < rank
            invariant
                r <= rank,
                zeros@.len() == r,
                forall|x: int| 0 <= x < r ==> #[trigger] zeros@[x] == 0,
            decreases rank - r,
        {
            zeros.push(0);
            r = r + 1;
        }
        let mut w = geo.b_pack.write_with_k_outer(n);
        let mut ci: usize = 0;
        while ci < cpg
            invariant
                geo.patch_inputs_ok(*ds, data@, b as int, g as int),
                which == Patcher::Padded2d ==> geo.patch.rank() == 2,
                which == Patcher::Valid2d ==> geo.patch.rank() == 2 && !geo.patch.padded,
                which == Patcher::Valid1d ==> geo.patch.rank() == 1 && !geo.patch.padded,
                which != Patcher::Generic,
                n == geo.n,
                kv == geo.kernel_volume(),
                cpg == geo.ci_per_group,
                rank == geo.patch.rank(),
                data_len == data@.len(),
                hw@ == ds.hw_dims_spec(),
                has_origin == forall|x: int| 0 <= x < rank ==> #[trigger] hw@[x] >= 1,
                zeros@.len() == rank,
                forall|x: int| 0 <= x < rank ==> #[trigger] zeros@[x] == 0,
                dense == geo.dense(*ds, data@, b as int, g as int, pad),
                w.packer == geo.b_pack,
                w.mn == n,
                ci <= cpg,
                w.written@ == dense.subrange(0, ci * kv * n),
            decreases cpg - ci,
        {
            proof {
                assert(g * cpg + ci < ds.c_spec()) by (nonlinear_arith)
                    requires
                        (g + 1) * cpg <= ds.c_spec(),
                        ci < cpg,
                ;
                assert(g * cpg + ci <= (g + 1) * cpg) by (nonlinear_arith)
                    requires
                        ci < cpg,
                ;
            }
            let chan = g * cpg + ci;
            let base: usize = if has_origin {
                proof {
                    assert(in_lattice(ds.hw_dims_spec(), as_ints(zeros@)));
                }
                offset_of(ds, data_len, b, chan, &zeros)
            } else {
                0
            };
            proof {
                if rank == 2 {
                    assert(as_ints(zeros@) =~= seq![0int, 0int]);
                }
                if rank == 1 {
                    assert(as_ints(zeros@) =~= seq![0int]);
                }
            }
            let mut kidx: usize = 0;
            while kidx < kv
                invariant
                    geo.patch_inputs_ok(*ds, data@, b as int, g as int),
                    which == Patcher::Padded2d ==> geo.patch.rank() == 2,
                    which == Patcher::Valid2d ==> geo.patch.rank() == 2 && !geo.patch.padded,
                    which == Patcher::Valid1d ==> geo.patch.rank() == 1 && !geo.patch.padded,
                    which != Patcher::Generic,
                    n == geo.n,
                    kv == geo.kernel_volume(),
                    cpg == geo.ci_per_group,
                    rank == geo.patch.rank(),
                    data_len == data@.len(),
                    chan == g * cpg + ci,
                    has_origin == forall|x: int| 0 <= x < rank ==> #[trigger] hw@[x] >= 1,
                    hw@ == ds.hw_dims_spec(),
                    has_origin ==> base == ds.offset(b as int, chan as int, as_ints(zeros@)),
                    rank == 2 ==> as_ints(zeros@) == seq![0int, 0int],
                    rank == 1 ==> as_ints(zeros@) == seq![0int],
                    dense == geo.dense(*ds, data@, b as int, g as int, pad),
                    w.packer == geo.b_pack,
                    w.mn == n,
                    ci < cpg,
                    kidx <= kv,
                    w.written@ == dense.subrange(0, (ci * kv + kidx) * n),
                decreases kv - kidx,
            {
                let ghost before = w.written@;
                match which {
                    Patcher::Padded2d => {
                        proof {
                            assert(hw@[0] == geo.patch.input_shape@[0]);
                            assert(hw@[1] == geo.patch.input_shape@[1]);
                        }
                        Self::padded_2d_row(geo, ds, data, b, g, ci, kidx, base, pad, &mut w);
                    },
                    Patcher::Valid2d => {
                        proof {
                            assert(hw@[0] == geo.patch.input_shape@[0]);
                            assert(hw@[1] == geo.patch.input_shape@[1]);
                        }
                        Self::valid_2d_row(geo, ds, data, b, g, ci, kidx, base, &mut w, Ghost(pad));
                    },
                    _ => {
                        proof {
                            assert(hw@[0] == geo.patch.input_shape@[0]);
                        }
                        Self::valid_1d_row(geo, ds, data, b, g, ci, kidx, base, &mut w, Ghost(pad));
                    },
                }
                proof {
                    let kk = ci * kv + kidx;
                    let row = geo.dense_row(*ds, data@, b as int, g as int, kk as int, pad);
                    crate::matrix::lemma_cell_index(cpg as int, kv as int, ci as int, kidx as int);
                    assert(cpg * kv == kv * cpg) by (nonlinear_arith);
                    assert((kk + 1) * n == kk * n + n) by (nonlinear_arith);
                    assert(kk * n + n <= kv * cpg * n) by (nonlinear_arith)
                        requires
                            kk < kv * cpg,
                    ;
                    assert(geo.k * n == kv * cpg * n) by (nonlinear_arith)
                        requires
                            geo.k == kv * cpg,
                    ;
                    assert forall|j: int| 0 <= j < n implies #[trigger] row[j] == dense[kk * n + j] by {
                        lemma_dense_position(n as int, kv as int, cpg as int, ci as int, kidx as int, j);
                    }
                    assert(w.written@ =~= dense.subrange(0, (kk + 1) * n));
                }
                kidx = kidx + 1;
            }
            proof {
                assert((ci * kv + kv) * n == (ci + 1) * kv * n) by (nonlinear_arith);
            }
            ci = ci + 1;
        }
        proof {
            assert(geo.k * n == cpg * kv * n) by (nonlinear_arith)
                requires
                    geo.k == kv * cpg,
            ;
            assert(dense.subrange(0, cpg * kv * n) =~= dense);
        }
        w.finish(fill)
    }

    /// Strategy for an unpadded one-dimensional patch: every value is read at its kernel
    /// element's offset in the input layout, with no bound check. No window reads outside
    /// the input, so there is no pad value: the result is the packed matrix for every pad.
    pub fn valid_1d<T: Copy>(geo: &ConcreteGeometry, ds: &DataShape, data: &Vec<T>, b: usize, g: usize, fill: T) -> (r: Vec<T>)
        requires
            geo.patch_inputs_ok(*ds, data@, b as int, g as int),
            geo.patch.rank() == 1,
            !geo.patch.padded,
        ensures
            forall|p: T| r@ == #[trigger] geo.packed_block(*ds, data@, b as int, g as int, p, fill),
    {
        let r = Self::fill_by_rows(geo, ds, data, b, g, fill, fill, Patcher::Valid1d);
        proof {
            geo.lemma_unpadded_block_ignores_pad(*ds, data@, b as int, g as int, fill);
        }
        r
    }

    /// Strategy for an unpadded two-dimensional patch: every value is read at its kernel
    /// element's offset in the input layout, with no bound check. No window reads outside
    /// the input, so there is no pad value: the result is the packed matrix for every pad.
    pub fn valid_2d<T: Copy>(geo: &ConcreteGeometry, ds: &DataShape, data: &Vec<T>, b: usize, g: usize, fill: T) -> (r: Vec<T>)
        requires
            geo.patch_inputs_ok(*ds, data@, b as int, g as int),
            geo.patch.rank() == 2,
            !geo.patch.padded,
        ensures
            forall|p: T| r@ == #[trigger] geo.packed_block(*ds, data@, b as int, g as int, p, fill),
    {
        let r = Self::fill_by_rows(geo, ds, data, b, g, fill, fill, Patcher::Valid2d);
        proof {
            geo.lemma_unpadded_block_ignores_pad(*ds, data@, b as int, g as int, fill);
        }
        r
    }

    /// Strategy for a two-dimensional patch that may reach outside the input: a window
    /// row or column outside it reads `pad`. Where no window reaches outside, the result
    /// does not depend on `pad`.
    pub fn padded_2d<T: Copy>(
        geo: &ConcreteGeometry,
        ds: &DataShape,
        data: &Vec<T>,
        b: usize,
        g: usize,
        pad: T,
        fill: T,
    ) -> (r: Vec<T>)
        requires
            geo.patch_inputs_ok(*ds, data@, b as int, g as int),
            geo.patch.rank() == 2,
        ensures
            r@ == geo.packed_block(*ds, data@, b as int, g as int, pad, fill),
            !geo.patch.padded ==> forall|p: T| r@ == #[trigger] geo.packed_block(*ds, data@, b as int, g as int, p, fill),
    {
        let r = Self::fill_by_rows(geo, ds, data, b, g, pad, fill, Patcher::Padded2d);
        proof {
            if !geo.patch.padded {
                geo.lemma_unpadded_block_ignores_pad(*ds, data@, b as int, g as int, fill);
                assert(r@ == geo.packed_block(*ds, data@, b as int, g as int, fill, fill)) by {
                    geo.lemma_unpadded_ignores_pad(*ds, data@, b as int, g as int, pad, fill);
                }
            }
        }
        r
    }

    /// Fills the packed matrix of batch `b` and group `g` with this strategy. The valid
    /// strategies do not read `pad`.
    pub fn patch<T: Copy>(
        &self,
        geo: &ConcreteGeometry,
        ds: &DataShape,
        data: &Vec<T>,
        b: usize,
        g: usize,
        pad: T,
        fill: T,
    ) -> (r: Vec<T>)
        requires
            geo.patch_inputs_ok(*ds, data@, b as int, g as int),
            *self == geo.patcher,
        ensures
            r@ == geo.packed_block(*ds, data@, b as int, g as int, pad, fill),
            !geo.patch.padded ==> forall|p: T| r@ == #[trigger] geo.packed_block(*ds, data@, b as int, g as int, p, fill),
    {
        match self {
            Patcher::Valid1d => Self::valid_1d(geo, ds, data, b, g, fill),
            Patcher::Valid2d => Self::valid_2d(geo, ds, data, b, g, fill),
            Patcher::Padded2d => Self::padded_2d(geo, ds, data, b, g, pad, fill),
            Patcher::Generic => Self::generic(geo, ds, data, b, g, pad, fill),
        }
    }

    /// Reference strategy: any rank, any padding. Reads every window position through the
    /// patch's displacement table, with a bound check on each coordinate.
    pub fn generic<T: Copy>(
        geo: &ConcreteGeometry,
        ds: &DataShape,
        data: &Vec<T>,
        b: usize,
        g: usize,
        pad: T,
        fill: T,
    ) -> (r: Vec<T>)
        requires
            geo.patch_inputs_ok(*ds, data@, b as int, g as int),
        ensures
            r@ == geo.packed_block(*ds, data@, b as int, g as int, pad, fill),
            !geo.patch.padded ==> forall|p: T| r@ == #[trigger] geo.packed_block(*ds, data@, b as int, g as int, p, fill),
    {
        let r = Self::generic_dense_packed(geo, ds, data, b, g, pad, fill);
        proof {
            if !geo.patch.padded {
                geo.lemma_unpadded_block_ignores_pad(*ds, data@, b as int, g as int, fill);
                geo.lemma_unpadded_ignores_pad(*ds, data@, b as int, g as int, pad, fill);
            }
        }
        r
    }

    fn generic_dense_packed<T: Copy>(
        geo: &ConcreteGeometry,
        ds: &DataShape,
        data: &Vec<T>,
        b: usize,
        g: usize,
        pad: T,
        fill: T,
    ) -> (r: Vec<T>)
        requires
            geo.patch_inputs_ok(*ds, data@, b as int, g as int),
        ensures
            r@ == geo.packed_block(*ds, data@, b as int, g as int, pad, fill),
    {
        let n = geo.n;
        let kv = geo.patch.standard_layout_data_field.len();
        let cpg = geo.ci_per_group;
        let rank = geo.patch.kernel_shape.len();
        let data_len = data.len();
        let mut w = geo.b_pack.write_with_k_outer(n);
        if n == 0 {
            proof {
                assert(geo.k * n == 0) by (nonlinear_arith)
                    requires
                        n == 0,
                ;
                assert(geo.dense(*ds, data@, b as int, g as int, pad) =~= w.written@);
            }
            return w.finish(fill);
        }
        proof {
            assert forall|x: int| 0 <= x < rank implies #[trigger] geo.patch.output_shape@[x] >= 1 by {
                if geo.patch.output_shape@[x] == 0 {
                    crate::shape::lemma_suffix_prod_zero(geo.patch.output_shape@, 0, x);
                }
            }
        }
        let osuf = crate::patch::suffix_products(&geo.patch.output_shape, n);
        let ghost dense = geo.dense(*ds, data@, b as int, g as int, pad);
        let mut ci: usize = 0;
        while ci < cpg
            invariant
                geo.patch_inputs_ok(*ds, data@, b as int, g as int),
                n == geo.n,
                n > 0,
                kv == geo.kernel_volume(),
                cpg == geo.ci_per_group,
                rank == geo.patch.rank(),
                data_len == data@.len(),
                osuf@.len() == rank + 1,
                forall|x: int| 0 <= x <= rank ==> #[trigger] osuf@[x] == suffix_prod(geo.patch.output_shape@, x),
                forall|x: int| 0 <= x < rank ==> #[trigger] geo.patch.output_shape@[x] >= 1,
                dense == geo.dense(*ds, data@, b as int, g as int, pad),
                w.packer == geo.b_pack,
                w.mn == n,
                ci <= cpg,
                w.written@.len() == ci * kv * n,
                forall|q: int| 0 <= q < w.written@.len() ==> #[trigger] w.written@[q] == dense[q],
            decreases cpg - ci,
        {
            let mut kidx: usize = 0;
            while kidx < kv
                invariant
                    geo.patch_inputs_ok(*ds, data@, b as int, g as int),
                    n == geo.n,
                    n > 0,
                    kv == geo.kernel_volume(),
                    cpg == geo.ci_per_group,
                    rank == geo.patch.rank(),
                    data_len == data@.len(),
                    osuf@.len() == rank + 1,
                    forall|x: int| 0 <= x <= rank ==> #[trigger] osuf@[x] == suffix_prod(geo.patch.output_shape@, x),
                    forall|x: int| 0 <= x < rank ==> #[trigger] geo.patch.output_shape@[x] >= 1,
                    dense == geo.dense(*ds, data@, b as int, g as int, pad),
                    w.packer == geo.b_pack,
                    w.mn == n,
                    ci < cpg,
                    kidx <= kv,
                    w.written@.len() == (ci * kv + kidx) * n,
                    forall|q: int| 0 <= q < w.written@.len() ==> #[trigger] w.written@[q] == dense[q],
                decreases kv - kidx,
            {
                let mut j: usize = 0;
                while j < n
                    invariant
                        geo.patch_inputs_ok(*ds, data@, b as int, g as int),
                        n == geo.n,
                        n > 0,
                        kv == geo.kernel_volume(),
                        cpg == geo.ci_per_group,
                        rank == geo.patch.rank(),
                        data_len == data@.len(),
                        osuf@.len() == rank + 1,
                        forall|x: int| 0 <= x <= rank ==> #[trigger] osuf@[x] == suffix_prod(geo.patch.output_shape@, x),
                        forall|x: int| 0 <= x < rank ==> #[trigger] geo.patch.output_shape@[x] >= 1,
                        dense == geo.dense(*ds, data@, b as int, g as int, pad),
                        w.packer == geo.b_pack,
                        w.mn == n,
                        ci < cpg,
                        kidx < kv,
                        j <= n,
                        w.written@.len() == (ci * kv + kidx) * n + j,
                        forall|q: int| 0 <= q < w.written@.len() ==> #[trigger] w.written@[q] == dense[q],
                    decreases n - j,
                {
                    proof {
                        lemma_dense_position(n as int, kv as int, cpg as int, ci as int, kidx as int, j as int);
                    }
                    let v = Self::generic_value(geo, ds, data, b, g, ci, kidx, j, &osuf, pad);
                    proof {
                        let q = (ci * kv + kidx) * n + j;
                        assert(v == dense[q as int]);
                    }
                    w.write(v);
                    j = j + 1;
                }
                proof {
                    assert((ci * kv + kidx) * n + n == (ci * kv + kidx + 1) * n) by (nonlinear_arith);
                }
                kidx = kidx + 1;
            }
            proof {
                assert((ci * kv + kv) * n == (ci + 1) * kv * n) by (nonlinear_arith);
            }
            ci = ci + 1;
        }
        proof {
            assert(geo.k * n == cpg * kv * n) by (nonlinear_arith)
                requires
                    geo.k == kv * cpg,
            ;
            assert(w.written@ =~= dense);
        }
        w.finish(fill)
    }

    /// One entry of the dense matrix: channel `ci` of group `g`, kernel element `kidx`,
    /// window position `j`.
    fn generic_value<T: Copy>(
        geo: &ConcreteGeometry,
        ds: &DataShape,
        data: &Vec<T>,
        b: usize,
        g: usize,
        ci: usize,
        kidx: usize,
        j: usize,
        osuf: &Vec<usize>,
        pad: T,
    ) -> (v: T)
        requires
            geo.patch_inputs_ok(*ds, data@, b as int, g as int),
            ci < geo.ci_per_group,
            kidx < geo.kernel_volume(),
            j < geo.n,
            osuf@.len() == geo.patch.rank() + 1,
            forall|x: int| 0 <= x <= geo.patch.rank() ==> #[trigger] osuf@[x] == suffix_prod(geo.patch.output_shape@, x),
            forall|x: int| 0 <= x < geo.patch.rank() ==> #[trigger] geo.patch.output_shape@[x] >= 1,
        ensures
            v == input_value(
                *ds,
                data@,
                b as int,
                g * geo.ci_per_group + ci,
                geo.window_coords(kidx as int, j as int),
                pad,
            ),
    {
        let rank = geo.patch.kernel_shape.len();
        let df_len = geo.patch.data_field.len();
        let ghost coords = geo.window_coords(kidx as int, j as int);
        let mut y: Vec<usize> = Vec::new();
        let mut r: usize = 0;
        proof {
            assert(kidx * rank + rank <= geo.kernel_volume() * rank) by (nonlinear_arith)
                requires
                    kidx < geo.kernel_volume(),
            ;
        }
        while r < rank
            invariant
                geo.patch_inputs_ok(*ds, data@, b as int, g as int),
                rank == geo.patch.rank(),
                df_len == geo.patch.data_field@.len(),
                kidx < geo.kernel_volume(),
                kidx * rank + rank <= geo.kernel_volume() * rank,
                j < geo.n,
                osuf@.len() == rank + 1,
                forall|x: int| 0 <= x <= rank ==> #[trigger] osuf@[x] == suffix_prod(geo.patch.output_shape@, x),
                forall|x: int| 0 <= x < rank ==> #[trigger] geo.patch.output_shape@[x] >= 1,
                coords == geo.window_coords(kidx as int, j as int),
                r <= rank,
                y@.len() == r,
                forall|x: int| 0 <= x < r ==> #[trigger] y@[x] as int == coords[x],
                forall|x: int| 0 <= x < r ==> 0 <= #[trigger] coords[x] < geo.patch.input_shape@[x],
            decreases rank - r,
        {
            proof {
                crate::shape::lemma_suffix_prod_pos(geo.patch.output_shape@, r + 1);
                crate::patch::lemma_unravel_bound(geo.patch.output_shape@, j as int, r as int);
                let o = unravel_at(geo.patch.output_shape@, j as int, r as int);
                assert(o * geo.patch.strides@[r as int] <= geo.patch.output_shape@[r as int] * geo.patch.strides@[r as int])
                    by (nonlinear_arith)
                    requires
                        0 <= o < geo.patch.output_shape@[r as int],
                ;
                assert(0 <= o * geo.patch.strides@[r as int]) by (nonlinear_arith)
                    requires
                        0 <= o,
                ;
                assert(geo.patch.df(kidx as int, r as int) == unravel_at(geo.patch.kernel_shape@, kidx as int, r as int)
                    * geo.patch.dilations@[r as int] - geo.patch.pad_before@[r as int]);
                crate::patch::lemma_unravel_bound(geo.patch.kernel_shape@, kidx as int, r as int);
                let kc = unravel_at(geo.patch.kernel_shape@, kidx as int, r as int);
                assert(0 <= kc * geo.patch.dilations@[r as int] <= geo.patch.kernel_shape@[r as int] * geo.patch.dilations@[r as int])
                    by (nonlinear_arith)
                    requires
                        0 <= kc < geo.patch.kernel_shape@[r as int],
                ;
                assert(geo.patch.output_shape@[r as int] * geo.patch.strides@[r as int]
                    + geo.patch.kernel_shape@[r as int] * geo.patch.dilations@[r as int]
                    + geo.patch.input_shape@[r as int] + geo.patch.pad_before@[r as int] <= isize::MAX);
                crate::matrix::lemma_cell_index(geo.kernel_volume() as int, rank as int, kidx as int, r as int);
            }
            let o = (j / osuf[r + 1]) % geo.patch.output_shape[r];
            let c = (o * geo.patch.strides[r]) as isize + geo.patch.data_field[kidx * rank + r];
            if c < 0 || c >= geo.patch.input_shape[r] as isize {
                proof {
                    assert(!in_lattice(ds.hw_dims_spec(), coords)) by {
                        assert(coords[r as int] == c);
                    }
                }
                return pad;
            }
            y.push(c as usize);
            proof {
                assert(coords[r as int] == c);
            }
            r = r + 1;
        }
        proof {
            assert(as_ints(y@) =~= coords);
            assert(in_lattice(ds.hw_dims_spec(), coords));
            assert(g * geo.ci_per_group + ci < ds.c_spec()) by (nonlinear_arith)
                requires
                    (g + 1) * geo.ci_per_group <= ds.c_spec(),
                    ci < geo.ci_per_group,
            ;
        }
        let idx = offset_of(ds, data.len(), b, g * geo.ci_per_group + ci, &y);
        data[idx]
    }
}

/// Proof that entry `q` of a dense matrix with `n` columns and `kv * cpg` rows lies in a
/// row whose channel is below `cpg`.
pub(crate) proof fn lemma_row_channel(q: int, n: int, kv: int, cpg: int)
    requires
        0 <= q < kv * cpg * n,
        kv >= 0,
        cpg >= 0,
        n >= 0,
    ensures
        n > 0,
        kv > 0,
        0 <= q / n < kv * cpg,
        0 <= (q / n) / kv < cpg,
{
    assert(n > 0 && kv > 0 && cpg > 0) by (nonlinear_arith)
        requires
            0 <= q < kv * cpg * n,
            kv >= 0,
            cpg >= 0,
            n >= 0,
    ;
    let kk = q / n;
    vstd::arithmetic::div_mod::lemma_fundamental_div_mod(q, n);
    vstd::arithmetic::div_mod::lemma_mod_pos_bound(q, n);
    assert(0 <= kk < kv * cpg) by (nonlinear_arith)
        requires
            q == n * kk + q % n,
            0 <= q % n < n,
            0 <= q < kv * cpg * n,
            n > 0,
    ;
    vstd::arithmetic::div_mod::lemma_fundamental_div_mod(kk, kv);
    vstd::arithmetic::div_mod::lemma_mod_pos_bound(kk, kv);
    assert(0 <= kk / kv < cpg) by (nonlinear_arith)
        requires
            kk == kv * (kk / kv) + kk % kv,
            0 <= kk % kv < kv,
            0 <= kk < kv * cpg,
            kv > 0,
    ;
}

impl ConcreteGeometry {
    /// Where no window reaches outside the input, the packed matrix is the same for every
    /// pad value.
    pub proof fn lemma_unpadded_block_ignores_pad<T>(&self, ds: DataShape, data: Seq<T>, b: int, g: int, fill: T)
        requires
            self.wf(ds),
            !self.patch.padded,
        ensures
            forall|p: T| #[trigger] self.packed_block(ds, data, b, g, p, fill) == self.packed_block(ds, data, b, g, fill, fill),
    {
        assert forall|p: T| #[trigger] self.packed_block(ds, data, b, g, p, fill) == self.packed_block(ds, data, b, g, fill, fill) by {
            self.lemma_unpadded_ignores_pad(ds, data, b, g, p, fill);
        }
    }

    /// Where no window reaches outside the input, the pad value is never read: the dense
    /// matrix is the same whatever the pad value.
    pub proof fn lemma_unpadded_ignores_pad<T>(&self, ds: DataShape, data: Seq<T>, b: int, g: int, p1: T, p2: T)
        requires
            self.wf(ds),
            !self.patch.padded,
        ensures
            self.dense(ds, data, b, g, p1) == self.dense(ds, data, b, g, p2),
    {
        let d1 = self.dense(ds, data, b, g, p1);
        let d2 = self.dense(ds, data, b, g, p2);
        let n = self.n as int;
        let kv = self.kernel_volume() as int;
        let rank = self.patch.rank() as int;
        let out = self.patch.output_shape@;
        assert forall|q: int| 0 <= q < d1.len() implies d1[q] == d2[q] by {
            lemma_row_channel(q, n, kv, self.ci_per_group as int);
            let kk = q / n;
            let j = q % n;
            let kidx = kk % kv;
            vstd::arithmetic::div_mod::lemma_mod_pos_bound(kk, kv);
            vstd::arithmetic::div_mod::lemma_mod_pos_bound(q, n);
            let y = self.window_coords(kidx, j);
            assert forall|x: int| 0 <= x < rank implies #[trigger] out[x] >= 1 by {
                if out[x] == 0 {
                    crate::shape::lemma_suffix_prod_zero(out, 0, x);
                }
            }
            assert forall|r: int| 0 <= r < rank implies 0 <= #[trigger] y[r] < self.patch.input_shape@[r] by {
                crate::patch::lemma_unravel_bound(out, j, r);
                let o = unravel_at(out, j, r);
                assert(!self.patch.reads_outside(o, kidx, r));
            }
            assert(in_lattice(ds.hw_dims_spec(), y));
        }
        assert(d1 =~= d2);
    }
}

} // verus!
