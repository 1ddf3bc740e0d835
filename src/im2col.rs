use crate::geometry::{DataFormat, PoolSpec};
use crate::mmm::MatMatMulImpl;
use crate::packer::Packer;
use crate::patch::Patch;
use crate::patcher::{dense_matrix, lemma_row_channel, window_point, ConcreteGeometry, Patcher};
use crate::shape::{checked_product, in_lattice, prefix_prod, suffix_prod};
use crate::tensor::{lemma_input_value_view, trailing_products_fit, DataShape, Tensor};
use vstd::prelude::*;

verus! {

/// Why an im2col cannot run on an input.
#[derive(Clone, Copy, Debug, PartialEq, Eq, Structural)]
pub enum Im2ColError {
    /// The input shape does not fit the pool spec, the group count or the packing, or one of
    /// the sizes they give does not fit the machine's integers.
    ShapeError,
}

/// Rewrites a feature tensor as the packed B operand of a convolution's matrix product.
#[derive(Clone, Debug)]
pub struct Im2Col {
    pub pool_spec: PoolSpec,
    pub data_format_with_n: DataFormat,
    pub k: usize,
    pub b_pack: Packer,
    pub group: usize,
}

impl Im2Col {
    pub open spec fn wf(&self) -> bool {
        &&& self.b_pack.wf()
        &&& self.b_pack.k == self.k
        &&& self.data_format_with_n == self.pool_spec.data_format.with_n_spec()
    }

    /// Input shape with a batch axis.
    pub open spec fn shape_with_n(&self, shape: Seq<usize>) -> Seq<usize> {
        if self.pool_spec.data_format.has_n_spec() {
            shape
        } else {
            seq![1usize] + shape
        }
    }


    /// Conditions under which the geometry resolves over the input shape of `ds`.
    pub open spec fn resolvable_for(&self, ds: DataShape) -> bool {
        let hw = ds.hw_dims_spec();
        let layout = ds.hw_strides_spec();
        let kv = suffix_prod(self.pool_spec.kernel_shape@, 0);
        let n = suffix_prod(self.pool_spec.output_spatial(hw), 0);
        &&& ds.rank() == self.pool_spec.rank()
        &&& self.group >= 1
        &&& ds.c_spec() % (self.group as int) == 0
        &&& ds.fits()
        &&& Patch::resolvable(&self.pool_spec, hw, layout)
        &&& kv * (ds.c_spec() / (self.group as int)) == self.k
        &&& self.k * n <= usize::MAX
        &&& self.b_pack.len_spec(n) <= usize::MAX
    }

    /// Number of window positions over the input shape of `ds`.
    pub open spec fn n_spec(&self, ds: DataShape) -> nat {
        suffix_prod(self.pool_spec.output_spatial(ds.hw_dims_spec()), 0)
    }

    /// The packed matrix of batch `b` and group `g`, as the pool spec defines it.
    pub open spec fn block<T>(&self, ds: DataShape, data: Seq<T>, b: int, g: int, pad: T) -> Seq<T> {
        let hw = ds.hw_dims_spec();
        let n = self.n_spec(ds);
        let dense = dense_matrix(
            self.pool_spec.output_spatial(hw),
            self.pool_spec.strides@,
            Patch::data_field_spec(&self.pool_spec, hw),
            suffix_prod(self.pool_spec.kernel_shape@, 0),
            (ds.c_spec() / (self.group as int)) as nat,
            self.k as nat,
            n,
            ds,
            data,
            b,
            g,
            pad,
        );
        self.b_pack.packed(dense, n, true, pad)
    }

    /// The geometry `geo` is the one the pool spec gives over the input shape of `ds`.
    pub open spec fn resolves_to(&self, ds: DataShape, geo: ConcreteGeometry) -> bool {
        let hw = ds.hw_dims_spec();
        &&& geo.wf(ds)
        &&& geo.patch.output_shape@ == self.pool_spec.output_spatial(hw)
        &&& geo.patch.strides@ == self.pool_spec.strides@
        &&& geo.patch.kernel_shape@ == self.pool_spec.kernel_shape@
        &&& geo.patch.data_field@ == Patch::data_field_spec(&self.pool_spec, hw)
        &&& geo.ci_per_group == ds.c_spec() / (self.group as int)
        &&& geo.k == self.k
        &&& geo.n == self.n_spec(ds)
        &&& geo.b_pack == self.b_pack
    }

    /// Resolves the geometry over the input shape of `ds`.
    pub fn resolve(&self, ds: &DataShape) -> (r: Result<ConcreteGeometry, Im2ColError>)
        requires
            self.wf(),
            ds.wf(),
        ensures
            r is Ok <==> self.resolvable_for(*ds),
            r matches Ok(geo) ==> self.resolves_to(*ds, geo),
    {
        let rank = ds.shape.len() - 2;
        if rank != self.pool_spec.kernel_shape.len() || self.group == 0 {
            return Err(Im2ColError::ShapeError);
        }
        let c = ds.c_dim();
        if c % self.group != 0 {
            return Err(Im2ColError::ShapeError);
        }
        let cpg = c / self.group;
        let hw = ds.hw_dims();
        let layout = match ds.hw_strides() {
            Some(v) => v,
            None => {
                return Err(Im2ColError::ShapeError);
            },
        };
        proof {
            if !ds.fits() {
                assert(!self.resolvable_for(*ds));
            }
        }
        if !trailing_products_fit(ds) {
            return Err(Im2ColError::ShapeError);
        }
        let patch = match Patch::new(&self.pool_spec, &hw, &layout) {
            Some(p) => p,
            None => {
                return Err(Im2ColError::ShapeError);
            },
        };
        let kv = patch.standard_layout_data_field.len();
        let k = match kv.checked_mul(cpg) {
            Some(x) => x,
            None => {
                return Err(Im2ColError::ShapeError);
            },
        };
        if k != self.k {
            return Err(Im2ColError::ShapeError);
        }
        let n = match checked_product(&patch.output_shape) {
            Some(x) => x,
            None => {
                return Err(Im2ColError::ShapeError);
            },
        };
        if k.checked_mul(n).is_none() {
            return Err(Im2ColError::ShapeError);
        }
        if self.b_pack.checked_len(n).is_none() {
            return Err(Im2ColError::ShapeError);
        }
        let padded = patch.padded;
        let patcher = if rank == 2 && !padded {
            Patcher::Valid2d
        } else if rank == 2 {
            Patcher::Padded2d
        } else if rank == 1 && !padded {
            Patcher::Valid1d
        } else {
            Patcher::Generic
        };
        Ok(ConcreteGeometry { patch, k, n, b_pack: self.b_pack, ci_per_group: cpg, patcher })
    }
}

impl Im2Col {
    /// Length of the packed axis over the input shape of `ds`.
    pub open spec fn packed_len(&self, ds: DataShape) -> nat {
        self.b_pack.len_spec(self.n_spec(ds))
    }

    /// Shape of the output over the input shape of `ds`: the batch axis where the data
    /// format has one, the group axis where there is more than one group, then the packed
    /// axis.
    pub open spec fn output_shape_spec(&self, ds: DataShape) -> Seq<usize> {
        let with_n: Seq<usize> = if self.pool_spec.data_format.has_n_spec() {
            seq![ds.n_spec() as usize]
        } else {
            seq![]
        };
        let with_g: Seq<usize> = if self.group != 1 {
            seq![self.group]
        } else {
            seq![]
        };
        with_n + with_g + seq![self.packed_len(ds) as usize]
    }

    /// Output values: the packed matrices of each batch element and group, in that order.
    pub open spec fn output_data<T>(&self, ds: DataShape, data: Seq<T>, pad: T) -> Seq<T> {
        let l = self.packed_len(ds) as int;
        let gl = self.group * l;
        Seq::new(
            (ds.n_spec() * gl) as nat,
            |idx: int| self.block(ds, data, idx / gl, (idx / l) % (self.group as int), pad)[idx % l],
        )
    }

    pub open spec fn runs_on(&self, ds: DataShape) -> bool {
        &&& ds.wf()
        &&& self.resolvable_for(ds)
        &&& ds.n_spec() * self.group * self.packed_len(ds) <= usize::MAX
    }

    /// Proof that a resolved geometry packs the same matrices as the pool spec defines.
    pub proof fn lemma_block<T>(&self, ds: DataShape, geo: ConcreteGeometry, data: Seq<T>, b: int, g: int, pad: T)
        requires
            self.resolves_to(ds, geo),
        ensures
            geo.packed_block(ds, data, b, g, pad, pad) == self.block(ds, data, b, g, pad),
    {
    }

    /// What a run on `input` returns, with `ds` the input's layout with a batch axis.
    pub open spec fn eval_result<T>(&self, ds: DataShape, input: Tensor<T>, pad_value: T, r: Result<Tensor<T>, Im2ColError>) -> bool {
        &&& ds.fmt == self.data_format_with_n
        &&& ds.shape@ == self.shape_with_n(input.shape@)
        &&& (r is Ok <==> self.runs_on(ds))
        &&& (r matches Ok(t) ==> t.wf() && t.shape@ == self.output_shape_spec(ds) && t.data@ == self.output_data(
            ds,
            input.data@,
            pad_value,
        ))
    }

    /// Runs the im2col on `input`, reading `pad_value` wherever a window reaches outside it.
    /// The element type has no zero known to the library, so the caller passes the pad value
    /// (the element type's zero where it has no pad input). Where the kernel has no rows
    /// (`k == 0`), the packed panels hold `pad_value` too.
    pub fn eval<T: Copy>(&self, input: &Tensor<T>, pad_value: T) -> (r: Result<Tensor<T>, Im2ColError>)
        requires
            self.wf(),
            input.wf(),
        ensures
            forall|ds: DataShape|
                ds.fmt == self.data_format_with_n && ds.shape@ == self.shape_with_n(input.shape@)
                    ==> #[trigger] self.eval_result(ds, *input, pad_value, r),
    {
        let ds = self.data_shape_of(&input.shape);
        proof {
            crate::shape::lemma_prefix_prod_is_product(input.shape@);
            crate::shape::lemma_prefix_prod_is_product(ds.shape@);
            if !self.pool_spec.data_format.has_n_spec() {
                crate::shape::lemma_unit_axis_product(input.shape@);
            }
        }
        let r = self.eval_on(&ds, input, pad_value);
        proof {
            assert forall|d: DataShape|
                d.fmt == self.data_format_with_n && d.shape@ == self.shape_with_n(input.shape@)
                    implies #[trigger] self.eval_result(d, *input, pad_value, r) by {
                self.lemma_output_view(ds, d, input.data@, pad_value);
            }
        }
        r
    }

    /// The layout of an input of shape `input_shape`, with a batch axis.
    fn data_shape_of(&self, input_shape: &Vec<usize>) -> (ds: DataShape)
        requires
            self.wf(),
        ensures
            ds.fmt == self.data_format_with_n,
            ds.shape@ == self.shape_with_n(input_shape@),
    {
        let has_n = self.pool_spec.data_format.has_n();
        let mut shape: Vec<usize> = Vec::new();
        if !has_n {
            shape.push(1);
        }
        let mut i: usize = 0;
        while i < input_shape.len()
            invariant
                i <= input_shape@.len(),
                shape@ == (if has_n { seq![] } else { seq![1usize] }) + input_shape@.subrange(0, i as int),
            decreases input_shape@.len() - i,
        {
            shape.push(input_shape[i]);
            i = i + 1;
            proof {
                assert(shape@ =~= (if has_n { seq![] } else { seq![1usize] }) + input_shape@.subrange(0, i as int));
            }
        }
        proof {
            assert(input_shape@.subrange(0, input_shape@.len() as int) =~= input_shape@);
            if has_n {
                assert(shape@ =~= input_shape@);
            }
        }
        let ds = DataShape { fmt: self.data_format_with_n, shape };
        ds
    }

    fn eval_on<T: Copy>(&self, ds: &DataShape, input: &Tensor<T>, pad_value: T) -> (r: Result<Tensor<T>, Im2ColError>)
        requires
            self.wf(),
            input.wf(),
            ds.fmt == self.data_format_with_n,
            ds.shape@ == self.shape_with_n(input.shape@),
            input.data@.len() == prefix_prod(ds.shape@, ds.shape@.len() as int),
        ensures
            self.eval_result(*ds, *input, pad_value, r),
    {
        let has_n = self.pool_spec.data_format.has_n();
        if ds.shape.len() < 2 {
            return Err(Im2ColError::ShapeError);
        }
        let geo = match self.resolve(ds) {
            Ok(g) => g,
            Err(e) => {
                return Err(e);
            },
        };
        let nb = ds.n();
        let groups = self.group;
        let l = self.b_pack.len(geo.n);
        proof {
            if !has_n {
                assert(ds.shape@[0] == 1);
            }
        }
        if nb == 0 || l == 0 {
            proof {
                assert(nb * groups * l == 0) by (nonlinear_arith)
                    requires
                        nb == 0 || l == 0,
                ;
                assert(self.output_data(*ds, input.data@, pad_value) =~= Seq::<T>::empty()) by {
                    assert(nb * (groups * l) == 0) by (nonlinear_arith)
                        requires
                            nb == 0 || l == 0,
                    ;
                }
            }
            return Ok(self.assemble(ds, l, Vec::new(), Ghost(input.data@), Ghost(pad_value)));
        }
        let gl = match groups.checked_mul(l) {
            Some(x) => x,
            None => {
                proof {
                    assert(nb * groups * l > usize::MAX) by (nonlinear_arith)
                        requires
                            groups * l > usize::MAX,
                            nb >= 1,
                    ;
                }
                return Err(Im2ColError::ShapeError);
            },
        };
        let total = match nb.checked_mul(gl) {
            Some(x) => x,
            None => {
                proof {
                    assert(nb * groups * l == nb * (groups * l)) by (nonlinear_arith);
                }
                return Err(Im2ColError::ShapeError);
            },
        };
        proof {
            assert(nb * groups * l == nb * (groups * l)) by (nonlinear_arith);
        }
        let ghost want = self.output_data(*ds, input.data@, pad_value);
        let mut out: Vec<T> = Vec::new();
        {
            let mut b: usize = 0;
            while b < nb
                invariant
                    self.wf(),
                    input.wf(),
                    ds.wf(),
                    self.resolves_to(*ds, geo),
                    input.data@.len() == prefix_prod(ds.shape@, ds.shape@.len() as int),
                    nb == ds.n_spec(),
                    groups == self.group,
                    groups >= 1,
                    ds.c_spec() % (groups as int) == 0,
                    l == self.packed_len(*ds),
                    gl == groups * l,
                    total == nb * gl,
                    l > 0,
                    b <= nb,
                    want == self.output_data(*ds, input.data@, pad_value),
                    out@ == want.subrange(0, b * gl),
                decreases nb - b,
            {
                let mut g: usize = 0;
                while g < groups
                    invariant
                        self.wf(),
                        input.wf(),
                        ds.wf(),
                        self.resolves_to(*ds, geo),
                        input.data@.len() == prefix_prod(ds.shape@, ds.shape@.len() as int),
                        nb == ds.n_spec(),
                        groups == self.group,
                        groups >= 1,
                        ds.c_spec() % (groups as int) == 0,
                        l == self.packed_len(*ds),
                        gl == groups * l,
                        total == nb * gl,
                        l > 0,
                        b < nb,
                        g <= groups,
                        want == self.output_data(*ds, input.data@, pad_value),
                        out@ == want.subrange(0, b * gl + g * l),
                    decreases groups - g,
                {
                    proof {
                        let cpg = ds.c_spec() / (groups as int);
                        vstd::arithmetic::div_mod::lemma_fundamental_div_mod(ds.c_spec(), groups as int);
                        assert((g + 1) * cpg <= ds.c_spec()) by (nonlinear_arith)
                            requires
                                g < groups,
                                ds.c_spec() == groups * cpg + 0,
                                cpg >= 0,
                        ;
                        assert(cpg >= 0) by (nonlinear_arith)
                            requires
                                ds.c_spec() >= 0,
                                groups >= 1,
                                cpg == ds.c_spec() / (groups as int),
                        ;
                    }
                    let block = geo.patcher.patch(&geo, ds, &input.data, b, g, pad_value, pad_value);
                    proof {
                        self.lemma_block(*ds, geo, input.data@, b as int, g as int, pad_value);
                        assert(block@.len() == l);
                        assert(b * gl + g * l + l <= total) by (nonlinear_arith)
                            requires
                                b < nb,
                                g < groups,
                                gl == groups * l,
                                total == nb * gl,
                        ;
                    }
                    let ghost before = out@;
                    let mut t: usize = 0;
                    while t < l
                        invariant
                            block@ == self.block(*ds, input.data@, b as int, g as int, pad_value),
                            block@.len() == l,
                            t <= l,
                            out@ == before + block@.subrange(0, t as int),
                        decreases l - t,
                    {
                        out.push(block[t]);
                        t = t + 1;
                        proof {
                            assert(out@ =~= before + block@.subrange(0, t as int));
                        }
                    }
                    proof {
                        assert(block@.subrange(0, l as int) =~= block@);
                        let base = b * gl + g * l;
                        assert forall|x: int| 0 <= x < l implies #[trigger] want[base + x] == block@[x] by {
                            assert(g * l + x < gl) by (nonlinear_arith)
                                requires
                                    g < groups,
                                    0 <= x < l,
                                    gl == groups * l,
                            ;
                            crate::matrix::lemma_cell_index(nb as int, gl as int, b as int, g * l + x);
                            assert(base + x == b * gl + (g * l + x));
                            vstd::arithmetic::div_mod::lemma_fundamental_div_mod_converse(
                                base + x,
                                gl as int,
                                b as int,
                                g * l + x,
                            );
                            assert(base + x == (b * groups + g) * l + x) by (nonlinear_arith)
                                requires
                                    base == b * gl + g * l,
                                    gl == groups * l,
                            ;
                            vstd::arithmetic::div_mod::lemma_fundamental_div_mod_converse(
                                base + x,
                                l as int,
                                b * groups + g,
                                x,
                            );
                            vstd::arithmetic::div_mod::lemma_fundamental_div_mod_converse(
                                b * groups + g,
                                groups as int,
                                b as int,
                                g as int,
                            );
                            assert(base + x < total);
                        }
                        assert(b * gl + (g + 1) * l == base + l) by (nonlinear_arith)
                            requires
                                base == b * gl + g * l,
                        ;
                        assert forall|idx: int| 0 <= idx < base + l implies out@[idx] == want[idx] by {
                            if idx >= base {
                                let x = idx - base;
                                assert(want[base + x] == block@[x]);
                            }
                        }
                        assert(out@ =~= want.subrange(0, b * gl + (g + 1) * l));
                    }
                    g = g + 1;
                }
                proof {
                    assert(b * gl + groups * l == (b + 1) * gl) by (nonlinear_arith)
                        requires
                            gl == groups * l,
                    ;
                }
                b = b + 1;
            }
            proof {
                assert(want.subrange(0, nb * gl) =~= want);
            }
        }
        Ok(self.assemble(ds, l, out, Ghost(input.data@), Ghost(pad_value)))
    }

    /// The output tensor over the values `out` of every batch element and group.
    fn assemble<T>(&self, ds: &DataShape, l: usize, out: Vec<T>, data: Ghost<Seq<T>>, pad: Ghost<T>) -> (t: Tensor<T>)
        requires
            self.wf(),
            self.runs_on(*ds),
            ds.fmt == self.data_format_with_n,
            !self.pool_spec.data_format.has_n_spec() ==> ds.n_spec() == 1,
            l == self.packed_len(*ds),
            out@ == self.output_data(*ds, data@, pad@),
        ensures
            t.wf(),
            t.shape@ == self.output_shape_spec(*ds),
            t.data@ == out@,
    {
        let nb = ds.n();
        let groups = self.group;
        let mut shape: Vec<usize> = Vec::new();
        if self.pool_spec.data_format.has_n() {
            shape.push(nb);
        }
        if groups != 1 {
            shape.push(groups);
        }
        shape.push(l);
        proof {
            let sh = shape@;
            assert(sh =~= self.output_shape_spec(*ds));
            assert(out@.len() == nb * (groups * l));
            assert(prefix_prod(sh, 0) == 1);
            assert(prefix_prod(sh, 1) == prefix_prod(sh, 0) * (sh[0] as nat));
            if sh.len() >= 2 {
                assert(prefix_prod(sh, 2) == prefix_prod(sh, 1) * (sh[1] as nat));
            }
            if sh.len() == 3 {
                assert(prefix_prod(sh, 3) == prefix_prod(sh, 2) * (sh[2] as nat));
                assert(nb * (groups * l) == (1 * nb) * groups * l) by (nonlinear_arith);
            } else if sh.len() == 2 {
                if self.pool_spec.data_format.has_n_spec() {
                    assert(nb * (1 * l) == (1 * nb) * l) by (nonlinear_arith);
                } else {
                    assert(1 * (groups * l) == (1 * groups) * l) by (nonlinear_arith);
                }
            } else {
                assert(1 * (1 * l) == 1 * l) by (nonlinear_arith);
            }
        }
        Tensor { shape, data: out }
    }
}

impl Im2Col {
    /// An im2col for inputs of shape `input_full_shape`, packing for the B side of `mmm`
    /// with `k` rows.
    pub fn new(
        pool_spec: PoolSpec,
        group: usize,
        k: usize,
        input_full_shape: &Vec<usize>,
        mmm: &MatMatMulImpl,
    ) -> (r: Result<Im2Col, Im2ColError>)
        requires
            mmm.wf(),
        ensures
            r matches Ok(op) ==> {
                &&& op.wf()
                &&& op.pool_spec == pool_spec
                &&& op.group == group
                &&& op.k == k
                &&& op.data_format_with_n == pool_spec.data_format.with_n_spec()
                &&& op.b_pack == (Packer {
                    k,
                    panel_width: mmm.kernel.nr,
                    alignment: mmm.kernel.alignment_bytes_packed_b,
                    end_padding: mmm.kernel.end_padding_packed_b,
                })
            },
            r is Ok <==> exists|ds: DataShape|
                {
                    &&& ds.fmt == pool_spec.data_format.with_n_spec()
                    &&& #[trigger] ds.shape@ == (if pool_spec.data_format.has_n_spec() {
                        input_full_shape@
                    } else {
                        seq![1usize] + input_full_shape@
                    })
                    &&& ds.wf()
                    &&& (Im2Col {
                        pool_spec,
                        data_format_with_n: pool_spec.data_format.with_n_spec(),
                        k,
                        b_pack: Packer {
                            k,
                            panel_width: mmm.kernel.nr,
                            alignment: mmm.kernel.alignment_bytes_packed_b,
                            end_padding: mmm.kernel.end_padding_packed_b,
                        },
                        group,
                    }).resolvable_for(ds)
                },
    {
        let data_format_with_n = pool_spec.data_format.with_n();
        let b_pack = Packer::new(
            k,
            mmm.kernel.nr,
            mmm.kernel.alignment_bytes_packed_b,
            mmm.kernel.end_padding_packed_b,
        );
        let op = Im2Col { pool_spec, data_format_with_n, k, b_pack, group };
        let ds = op.data_shape_of(input_full_shape);
        if ds.shape.len() < 2 {
            proof {
                assert forall|d: DataShape|
                    d.fmt == op.data_format_with_n && #[trigger] d.shape@ == op.shape_with_n(input_full_shape@)
                        implies !(d.wf() && op.resolvable_for(d)) by {
                    assert(d.shape@.len() == ds.shape@.len());
                }
            }
            return Err(Im2ColError::ShapeError);
        }
        match op.resolve(&ds) {
            Ok(_) => Ok(op),
            Err(e) => {
                proof {
                    assert forall|d: DataShape|
                        d.fmt == op.data_format_with_n && #[trigger] d.shape@ == op.shape_with_n(input_full_shape@)
                            implies !(d.wf() && op.resolvable_for(d)) by {
                        op.lemma_resolvable_view(ds, d);
                    }
                }
                Err(e)
            },
        }
    }

    /// Proof that whether the geometry resolves depends on a layout's format and shape only.
    pub proof fn lemma_resolvable_view(&self, a: DataShape, b: DataShape)
        requires
            a.fmt == b.fmt,
            a.shape@ == b.shape@,
        ensures
            self.resolvable_for(a) == self.resolvable_for(b),
    {
        assert(a.hw_dims_spec() =~= b.hw_dims_spec());
        assert(a.hw_strides_spec() =~= b.hw_strides_spec());
    }

    /// What `output_shape` returns, with `ds` the input's layout with a batch axis.
    pub open spec fn output_shape_result(&self, ds: DataShape, r: Result<Vec<usize>, Im2ColError>) -> bool {
        &&& (r is Ok <==> ds.wf() && self.resolvable_for(ds))
        &&& (r matches Ok(v) ==> v@ == self.output_shape_spec(ds))
    }

    /// Shape of the output for an input of shape `input_shape`.
    pub fn output_shape(&self, input_shape: &Vec<usize>) -> (r: Result<Vec<usize>, Im2ColError>)
        requires
            self.wf(),
        ensures
            forall|ds: DataShape|
                ds.fmt == self.data_format_with_n && ds.shape@ == self.shape_with_n(input_shape@)
                    ==> #[trigger] self.output_shape_result(ds, r),
    {
        let ds = self.data_shape_of(input_shape);
        if ds.shape.len() < 2 {
            proof {
                assert forall|d: DataShape|
                    d.fmt == self.data_format_with_n && d.shape@ == self.shape_with_n(input_shape@)
                        implies #[trigger] self.output_shape_result(d, Err(Im2ColError::ShapeError)) by {
                    assert(d.shape@.len() == ds.shape@.len());
                }
            }
            return Err(Im2ColError::ShapeError);
        }
        proof {
            assert(self.data_format_with_n.has_n_spec());
            assert(ds.wf());
        }
        let geo = match self.resolve(&ds) {
            Ok(g) => g,
            Err(e) => {
                proof {
                    assert forall|d: DataShape|
                        d.fmt == self.data_format_with_n && d.shape@ == self.shape_with_n(input_shape@)
                            implies #[trigger] self.output_shape_result(d, Err(e)) by {
                        self.lemma_resolvable_view(ds, d);
                    }
                }
                return Err(e);
            },
        };
        let mut out: Vec<usize> = Vec::new();
        if self.pool_spec.data_format.has_n() {
            out.push(ds.n());
        }
        if self.group != 1 {
            out.push(self.group);
        }
        out.push(self.b_pack.len(geo.n));
        proof {
            assert(out@ =~= self.output_shape_spec(ds));
            assert forall|d: DataShape|
                d.fmt == self.data_format_with_n && d.shape@ == self.shape_with_n(input_shape@)
                    implies #[trigger] self.output_shape_result(d, Ok(out)) by {
                self.lemma_output_view(ds, d, Seq::<usize>::empty(), 0usize);
                self.lemma_resolvable_view(ds, d);
                assert(d.shape@.len() == ds.shape@.len());
            }
        }
        Ok(out)
    }
}

impl Im2Col {
    /// Group `g` of a grouped im2col is an im2col with one group over the channels of that
    /// group alone: its packed matrix is the one that `single` (the same op with one group)
    /// makes of a tensor `data1` of shape `ds1` that holds channels `g * cpg .. (g + 1) * cpg`
    /// of `data`.
    pub proof fn lemma_group_is_single_group_on_its_channels<T>(
        &self,
        single: &Im2Col,
        ds: DataShape,
        data: Seq<T>,
        ds1: DataShape,
        data1: Seq<T>,
        b: int,
        g: int,
        pad: T,
    )
        requires
            self.resolvable_for(ds),
            single.group == 1,
            single.pool_spec == self.pool_spec,
            single.k == self.k,
            single.b_pack == self.b_pack,
            ds.wf(),
            ds1.fmt == ds.fmt,
            ds1.shape@ == ds.shape@.update(ds.c_axis(), (ds.c_spec() / (self.group as int)) as usize),
            ds.c_spec() % (self.group as int) == 0,
            0 <= g < self.group,
            forall|c: int, y: Seq<int>|
                0 <= c < ds.c_spec() / (self.group as int) && in_lattice(ds.hw_dims_spec(), y)
                    ==> #[trigger] data1[ds1.offset(b, c, y)] == data[ds.offset(
                    b,
                    g * (ds.c_spec() / (self.group as int)) + c,
                    y,
                )],
        ensures
            self.block(ds, data, b, g, pad) == single.block(ds1, data1, b, 0, pad),
    {
        let cpg = ds.c_spec() / (self.group as int);
        assert(ds1.c_spec() == cpg);
        assert(ds1.hw_dims_spec() =~= ds.hw_dims_spec()) by {
            assert forall|r: int| 0 <= r < ds.rank() implies ds1.hw_dims_spec()[r] == ds.hw_dims_spec()[r] by {
                assert(ds.hw_axis(r) != ds.c_axis());
            }
        }
        let hw = ds.hw_dims_spec();
        let n = self.n_spec(ds);
        let out = self.pool_spec.output_spatial(hw);
        let df = Patch::data_field_spec(&self.pool_spec, hw);
        let kv = suffix_prod(self.pool_spec.kernel_shape@, 0);
        let d0 = dense_matrix(out, self.pool_spec.strides@, df, kv, cpg as nat, self.k as nat, n, ds, data, b, g, pad);
        let d1 = dense_matrix(out, self.pool_spec.strides@, df, kv, 1 * (cpg as nat), self.k as nat, n, ds1, data1, b, 0, pad);
        assert(cpg >= 0) by (nonlinear_arith)
            requires
                cpg == ds.c_spec() / (self.group as int),
                ds.c_spec() >= 0,
                self.group >= 1,
        ;
        assert(ds1.c_spec() / 1 == cpg);
        assert(self.k == kv * cpg);
        assert forall|q: int| 0 <= q < d0.len() implies d0[q] == d1[q] by {
            let kk = q / (n as int);
            let y = window_point(out, self.pool_spec.strides@, df, kk % (kv as int), q % (n as int));
            lemma_row_channel(q, n as int, kv as int, cpg);
            if in_lattice(hw, y) {
                assert(data1[ds1.offset(b, kk / (kv as int), y)] == data[ds.offset(b, g * cpg + kk / (kv as int), y)]);
            }
        }
        assert(d0 =~= d1);
    }
}

impl Im2Col {
    /// Proof that what a run returns depends on the layout's format and shape only.
    pub proof fn lemma_output_view<T>(&self, a: DataShape, d: DataShape, data: Seq<T>, pad: T)
        requires
            a.fmt == d.fmt,
            a.shape@ == d.shape@,
        ensures
            self.runs_on(a) == self.runs_on(d),
            self.output_shape_spec(a) == self.output_shape_spec(d),
            self.output_data(a, data, pad) == self.output_data(d, data, pad),
    {
        self.lemma_resolvable_view(a, d);
        assert(a.hw_dims_spec() =~= d.hw_dims_spec());
        assert(a.hw_strides_spec() =~= d.hw_strides_spec());
        let hw = a.hw_dims_spec();
        let n = self.n_spec(a);
        let out = self.pool_spec.output_spatial(hw);
        let df = Patch::data_field_spec(&self.pool_spec, hw);
        let kv = suffix_prod(self.pool_spec.kernel_shape@, 0);
        let cpg = (a.c_spec() / (self.group as int)) as nat;
        assert forall|bb: int, g: int| #[trigger] self.block(a, data, bb, g, pad) == self.block(d, data, bb, g, pad) by {
            let da = dense_matrix(out, self.pool_spec.strides@, df, kv, cpg, self.k as nat, n, a, data, bb, g, pad);
            let dd = dense_matrix(out, self.pool_spec.strides@, df, kv, cpg, self.k as nat, n, d, data, bb, g, pad);
            assert forall|q: int| 0 <= q < da.len() implies da[q] == dd[q] by {
                let kk = q / (n as int);
                lemma_input_value_view(
                    a,
                    d,
                    data,
                    bb,
                    g * cpg + kk / (kv as int),
                    window_point(out, self.pool_spec.strides@, df, kk % (kv as int), q % (n as int)),
                    pad,
                );
            }
            assert(da =~= dd);
        }
        let l = self.packed_len(a) as int;
        let gl = self.group * l;
        assert(self.output_data(a, data, pad) =~= self.output_data(d, data, pad)) by {
            assert forall|idx: int| 0 <= idx < self.output_data(a, data, pad).len() implies self.output_data(
                a,
                data,
                pad,
            )[idx] == self.output_data(d, data, pad)[idx] by {
                assert(self.block(a, data, idx / gl, (idx / l) % (self.group as int), pad) == self.block(
                    d,
                    data,
                    idx / gl,
                    (idx / l) % (self.group as int),
                    pad,
                ));
            }
        }
    }
}

impl Im2Col {
    /// Where an output spatial dimension is zero, the packed axis has length zero and the
    /// output holds no value.
    pub proof fn lemma_empty_output<T>(&self, ds: DataShape, data: Seq<T>, pad: T, r: int)
        requires
            self.wf(),
            0 <= r < self.pool_spec.rank(),
            self.pool_spec.output_spatial(ds.hw_dims_spec())[r] == 0,
        ensures
            self.packed_len(ds) == 0,
            self.output_shape_spec(ds).last() == 0,
            self.output_data(ds, data, pad).len() == 0,
    {
        let out = self.pool_spec.output_spatial(ds.hw_dims_spec());
        crate::shape::lemma_suffix_prod_zero(out, 0, r);
        let w = self.b_pack.panel_width as int;
        vstd::arithmetic::div_mod::lemma_fundamental_div_mod_converse(w - 1, w, 0, w - 1);
        assert(self.b_pack.panel_count(0) == 0);
        assert(self.b_pack.len_spec(0) == 0) by (nonlinear_arith)
            requires
                self.b_pack.len_spec(0) == self.b_pack.panel_count(0) * self.b_pack.panel_len(),
                self.b_pack.panel_count(0) == 0,
        ;
        assert(ds.n_spec() * (self.group * 0) == 0) by (nonlinear_arith);
    }
}

impl Im2Col {
    /// The output of a grouped im2col is, along its group axis, the outputs of im2cols with
    /// one group (`single`) over each group's channels: for group `g`, with `data1` a tensor
    /// of shape `ds1` holding channels `g * cpg .. (g + 1) * cpg` of `data`, every packed value
    /// of batch element `i` and group `g` is the value of batch element `i` in `single`'s output.
    pub proof fn lemma_grouped_output_is_concatenation<T>(
        &self,
        single: &Im2Col,
        ds: DataShape,
        data: Seq<T>,
        ds1: DataShape,
        data1: Seq<T>,
        g: int,
        pad: T,
    )
        requires
            self.resolvable_for(ds),
            ds.wf(),
            single.group == 1,
            single.pool_spec == self.pool_spec,
            single.k == self.k,
            single.b_pack == self.b_pack,
            ds1.fmt == ds.fmt,
            ds1.shape@ == ds.shape@.update(ds.c_axis(), (ds.c_spec() / (self.group as int)) as usize),
            0 <= g < self.group,
            forall|b: int, c: int, y: Seq<int>|
                0 <= b < ds.n_spec() && 0 <= c < ds.c_spec() / (self.group as int) && in_lattice(
                    ds.hw_dims_spec(),
                    y,
                ) ==> #[trigger] data1[ds1.offset(b, c, y)] == data[ds.offset(
                    b,
                    g * (ds.c_spec() / (self.group as int)) + c,
                    y,
                )],
        ensures
            single.packed_len(ds1) == self.packed_len(ds),
            ds1.n_spec() == ds.n_spec(),
            forall|i: int, x: int|
                0 <= i < ds.n_spec() && 0 <= x < self.packed_len(ds) ==> #[trigger] self.output_data(
                    ds,
                    data,
                    pad,
                )[(i * self.group + g) * self.packed_len(ds) + x] == single.output_data(ds1, data1, pad)[i
                    * self.packed_len(ds) + x],
    {
        assert(ds.c_axis() != 0);
        assert(ds1.hw_dims_spec() =~= ds.hw_dims_spec()) by {
            assert forall|r: int| 0 <= r < ds.rank() implies ds1.hw_dims_spec()[r] == ds.hw_dims_spec()[r] by {
                assert(ds.hw_axis(r) != ds.c_axis());
            }
        }
        let l = self.packed_len(ds) as int;
        let gg = self.group as int;
        let nb = ds.n_spec();
        assert forall|i: int, x: int|
            0 <= i < nb && 0 <= x < l implies #[trigger] self.output_data(ds, data, pad)[(i * gg + g) * l + x]
                == single.output_data(ds1, data1, pad)[i * l + x] by {
            self.lemma_group_is_single_group_on_its_channels(single, ds, data, ds1, data1, i, g, pad);
            let idx = (i * gg + g) * l + x;
            crate::matrix::lemma_cell_index(gg, l, g, x);
            crate::matrix::lemma_cell_index(nb, gg * l, i, g * l + x);
            assert(idx == i * (gg * l) + (g * l + x)) by (nonlinear_arith)
                requires
                    idx == (i * gg + g) * l + x,
            ;
            vstd::arithmetic::div_mod::lemma_fundamental_div_mod_converse(idx, gg * l, i, g * l + x);
            vstd::arithmetic::div_mod::lemma_fundamental_div_mod_converse(idx, l, i * gg + g, x);
            vstd::arithmetic::div_mod::lemma_fundamental_div_mod_converse(i * gg + g, gg, i, g);
            assert(gg * l == self.group * l);
            assert(idx < nb * (gg * l)) by (nonlinear_arith)
                requires
                    idx == i * (gg * l) + (g * l + x),
                    0 <= g * l + x < gg * l,
                    0 <= i < nb,
            ;
            crate::matrix::lemma_cell_index(nb, l, i, x);
            vstd::arithmetic::div_mod::lemma_fundamental_div_mod_converse(i * l + x, 1 * l, i, x);
            vstd::arithmetic::div_mod::lemma_fundamental_div_mod_converse(i * l + x, l, i, x);
            vstd::arithmetic::div_mod::lemma_fundamental_div_mod_converse(i, 1, i, 0);
            assert(nb * (1 * l) == nb * l);
        }
    }
}

} // verus!
