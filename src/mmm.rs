use crate::matrix::{cell, lemma_cell_index, set_cell, set_from_tile};
use crate::packer::{lemma_panel_count, lemma_panel_position, Packer};
use vstd::arithmetic::div_mod::{lemma_fundamental_div_mod, lemma_fundamental_div_mod_converse, lemma_mod_pos_bound};
use vstd::prelude::*;

verus! {

/// Element types of tensors.
#[derive(Clone, Copy, Debug, PartialEq, Eq, Structural)]
pub enum DatumType {
    Bool,
    U8,
    U16,
    U32,
    U64,
    I8,
    I16,
    I32,
    I64,
    F16,
    F32,
    F64,
}

impl DatumType {
    pub open spec fn size_spec(self) -> nat {
        match self {
            DatumType::Bool | DatumType::U8 | DatumType::I8 => 1,
            DatumType::U16 | DatumType::I16 | DatumType::F16 => 2,
            DatumType::U32 | DatumType::I32 | DatumType::F32 => 4,
            DatumType::U64 | DatumType::I64 | DatumType::F64 => 8,
        }
    }

    /// Size of one element, in bytes.
    pub fn size_of(&self) -> (r: usize)
        ensures
            r == self.size_spec(),
    {
        match self {
            DatumType::Bool | DatumType::U8 | DatumType::I8 => 1,
            DatumType::U16 | DatumType::I16 | DatumType::F16 => 2,
            DatumType::U32 | DatumType::I32 | DatumType::F32 => 4,
            DatumType::U64 | DatumType::I64 | DatumType::F64 => 8,
        }
    }
}

/// Static properties of a micro-kernel: the tile it computes (`mr` rows by `nr` columns)
/// and the packing it expects of each operand.
#[derive(Clone, Copy, Debug, PartialEq, Eq, Structural)]
pub struct Kernel {
    pub mr: usize,
    pub nr: usize,
    pub alignment_bytes_packed_a: usize,
    pub alignment_bytes_packed_b: usize,
    pub end_padding_packed_a: usize,
    pub end_padding_packed_b: usize,
}

impl Kernel {
    pub open spec fn wf(self) -> bool {
        &&& self.mr > 0
        &&& self.nr > 0
        &&& self.mr * self.nr <= usize::MAX
        &&& self.alignment_bytes_packed_a > 0
        &&& self.alignment_bytes_packed_b > 0
    }
}

/// Physical form of one operand of a matrix product.
#[derive(Debug)]
pub enum MatrixStoreSpec {
    /// Contiguous panels, `panel_bytes` apart.
    Packed { panel_bytes: usize },
    /// Read through byte offsets of rows and of columns.
    OffsetsAndPtrs { row_byte_offsets: Vec<isize>, col_byte_offsets: Vec<isize>, nr: usize },
    /// A strided view, with the tile shape of the kernel.
    View { axes: Option<(usize, usize)>, mr: usize, nr: usize },
    /// Explicit strides, in bytes and in items.
    Strides {
        row_byte_stride: isize,
        col_byte_stride: isize,
        row_item_stride: isize,
        col_item_stride: isize,
        mr: usize,
        nr: usize,
    },
}

/// Per-call working space of the driver: the temporary tile of the edges.
#[derive(Debug)]
pub struct ScratchSpace {
    pub internal_type: DatumType,
    pub tile: Vec<i64>,
}

impl ScratchSpace {
    /// Resets the temporary tile to `len` zeros.
    pub fn clear(&mut self, len: usize)
        ensures
            final(self).internal_type == old(self).internal_type,
            final(self).tile@ == Seq::new(len as nat, |i: int| 0i64),
    {
        let mut tile: Vec<i64> = Vec::new();
        let mut i: usize = 0;
        while i < len
            invariant
                i <= len,
                tile@ == Seq::new(i as nat, |x: int| 0i64),
            decreases len - i,
        {
            tile.push(0);
            i = i + 1;
            assert(tile@ =~= Seq::new(i as nat, |x: int| 0i64));
        }
        self.tile = tile;
    }
}

#[derive(Clone, Copy, Debug, PartialEq, Eq, Structural)]
pub enum MmmError {
    /// The scratch space does not hold the kernel's accumulator type.
    WrongScratchSpaceType,
}

/// Wrapped sum of products of row `r` of the A panel at `a_off` and column `c` of the
/// B panel at `b_off`, over the first `t` steps of the reduction axis.
pub open spec fn tile_dot(
    a: Seq<i64>,
    a_off: int,
    mr: int,
    b: Seq<i64>,
    b_off: int,
    nr: int,
    r: int,
    c: int,
    t: nat,
) -> i64
    decreases t,
{
    if t == 0 {
        0
    } else {
        let s = (t - 1) as nat;
        tile_dot(a, a_off, mr, b, b_off, nr, r, c, s).wrapping_add(
            a[a_off + s * mr + r].wrapping_mul(b[b_off + s * nr + c]),
        )
    }
}

/// Micro-kernel: one entry of a tile.
fn tile_entry(
    k: usize,
    a: &Vec<i64>,
    a_off: usize,
    mr: usize,
    b: &Vec<i64>,
    b_off: usize,
    nr: usize,
    r: usize,
    c: usize,
) -> (acc: i64)
    requires
        r < mr,
        c < nr,
        a_off + k * mr <= a@.len(),
        b_off + k * nr <= b@.len(),
    ensures
        acc == tile_dot(a@, a_off as int, mr as int, b@, b_off as int, nr as int, r as int, c as int, k as nat),
{
    let a_len = a.len();
    let b_len = b.len();
    let mut acc: i64 = 0;
    let mut t: usize = 0;
    while t < k
        invariant
            r < mr,
            c < nr,
            a_off + k * mr <= a@.len(),
            b_off + k * nr <= b@.len(),
            t <= k,
            a_len == a@.len(),
            b_len == b@.len(),
            acc == tile_dot(a@, a_off as int, mr as int, b@, b_off as int, nr as int, r as int, c as int, t as nat),
        decreases k - t,
    {
        proof {
            assert(t * mr + r < k * mr) by (nonlinear_arith)
                requires
                    t < k,
                    r < mr,
            ;
            assert(t * nr + c < k * nr) by (nonlinear_arith)
                requires
                    t < k,
                    c < nr,
            ;
        }
        let x = a[a_off + t * mr + r];
        let y = b[b_off + t * nr + c];
        acc = acc.wrapping_add(x.wrapping_mul(y));
        t = t + 1;
    }
    acc
}

/// Micro-kernel: computes the `mr` by `nr` tile of the panels at `a_off` and `b_off` into
/// `dst` (a `rows` by `rs` matrix) at row `row0`, column `col0`.
fn kernel_tile(
    k: usize,
    a: &Vec<i64>,
    a_off: usize,
    mr: usize,
    b: &Vec<i64>,
    b_off: usize,
    nr: usize,
    dst: &mut Vec<i64>,
    rows: usize,
    rs: usize,
    row0: usize,
    col0: usize,
)
    requires
        a_off + k * mr <= a@.len(),
        b_off + k * nr <= b@.len(),
        old(dst)@.len() == rows * rs,
        row0 + mr <= rows,
        col0 + nr <= rs,
    ensures
        final(dst)@.len() == old(dst)@.len(),
        forall|i: int, j: int|
            0 <= i < rows && 0 <= j < rs ==> #[trigger] cell(final(dst)@, rs as int, i, j) == if row0 <= i
                < row0 + mr && col0 <= j < col0 + nr {
                tile_dot(a@, a_off as int, mr as int, b@, b_off as int, nr as int, i - row0, j - col0, k as nat)
            } else {
                cell(old(dst)@, rs as int, i, j)
            },
{
    let ghost start = dst@;
    let mut r: usize = 0;
    while r < mr
        invariant
            a_off + k * mr <= a@.len(),
            b_off + k * nr <= b@.len(),
            dst@.len() == rows * rs,
            row0 + mr <= rows,
            col0 + nr <= rs,
            r <= mr,
            forall|i: int, j: int|
                0 <= i < rows && 0 <= j < rs ==> #[trigger] cell(dst@, rs as int, i, j) == if row0 <= i
                    < row0 + r && col0 <= j < col0 + nr {
                    tile_dot(a@, a_off as int, mr as int, b@, b_off as int, nr as int, i - row0, j - col0, k as nat)
                } else {
                    cell(start, rs as int, i, j)
                },
        decreases mr - r,
    {
        let mut c: usize = 0;
        while c < nr
            invariant
                a_off + k * mr <= a@.len(),
                b_off + k * nr <= b@.len(),
                dst@.len() == rows * rs,
                row0 + mr <= rows,
                col0 + nr <= rs,
                r < mr,
                c <= nr,
                forall|i: int, j: int|
                    0 <= i < rows && 0 <= j < rs ==> #[trigger] cell(dst@, rs as int, i, j) == if (row0
                        <= i < row0 + r && col0 <= j < col0 + nr) || (i == row0 + r && col0 <= j < col0
                        + c) {
                        tile_dot(a@, a_off as int, mr as int, b@, b_off as int, nr as int, i - row0, j - col0, k as nat)
                    } else {
                        cell(start, rs as int, i, j)
                    },
            decreases nr - c,
        {
            let v = tile_entry(k, a, a_off, mr, b, b_off, nr, r, c);
            set_cell(dst, rows, rs, row0 + r, col0 + c, v);
            c = c + 1;
        }
        r = r + 1;
    }
}

/// Wrapped sum of `a[i][s] * b[s][j]` for `s < t`, over a row-major `a` with `k` columns
/// and a row-major `b` with `n` columns.
pub open spec fn dense_dot(a: Seq<i64>, b: Seq<i64>, k: int, n: int, i: int, j: int, t: nat) -> i64
    decreases t,
{
    if t == 0 {
        0
    } else {
        let s = (t - 1) as nat;
        dense_dot(a, b, k, n, i, j, s).wrapping_add(a[i * k + s].wrapping_mul(b[s * n + j]))
    }
}

/// Exact sum of `a[i][s] * b[s][j]` for `s < t`.
pub open spec fn exact_dot(a: Seq<i64>, b: Seq<i64>, k: int, n: int, i: int, j: int, t: nat) -> int
    decreases t,
{
    if t == 0 {
        0
    } else {
        let s = (t - 1) as nat;
        exact_dot(a, b, k, n, i, j, s) + a[i * k + s] * b[s * n + j]
    }
}

/// No partial sum and no product of entry (`i`, `j`) leaves the range of `i64`.
pub open spec fn fits_i64(a: Seq<i64>, b: Seq<i64>, k: int, n: int, i: int, j: int) -> bool {
    forall|s: nat|
        s < k ==> {
            &&& i64::MIN <= #[trigger] exact_dot(a, b, k, n, i, j, s + 1) <= i64::MAX
            &&& i64::MIN <= a[i * k + s] * b[s * n + j] <= i64::MAX
        }
}

/// Where no partial sum overflows, the wrapped sum is the exact one.
pub proof fn lemma_dense_dot_exact(a: Seq<i64>, b: Seq<i64>, k: int, n: int, i: int, j: int, t: nat)
    requires
        t <= k,
        fits_i64(a, b, k, n, i, j),
    ensures
        dense_dot(a, b, k, n, i, j, t) as int == exact_dot(a, b, k, n, i, j, t),
    decreases t,
{
    if t > 0 {
        let s = (t - 1) as nat;
        lemma_dense_dot_exact(a, b, k, n, i, j, s);
        assert(i64::MIN <= exact_dot(a, b, k, n, i, j, s + 1) <= i64::MAX);
        assert(i64::MIN <= a[i * k + s] * b[s * n + j] <= i64::MAX);
    }
}

/// Tiled product of a packed A (`m` by `k`) and a packed B (`k` by `n`) into a row-major C.
#[derive(Clone, Copy, Debug)]
pub struct MatMatMulImpl {
    pub m: usize,
    pub k: usize,
    pub n: usize,
    pub kernel: Kernel,
}

impl MatMatMulImpl {
    pub open spec fn wf(self) -> bool {
        self.kernel.wf()
    }

    pub open spec fn a_pack_spec(self) -> Packer {
        Packer {
            k: self.k,
            panel_width: self.kernel.mr,
            alignment: self.kernel.alignment_bytes_packed_a,
            end_padding: self.kernel.end_padding_packed_a,
        }
    }

    pub open spec fn b_pack_spec(self) -> Packer {
        Packer {
            k: self.k,
            panel_width: self.kernel.nr,
            alignment: self.kernel.alignment_bytes_packed_b,
            end_padding: self.kernel.end_padding_packed_b,
        }
    }

    /// Wrapped sum over the first `t` steps of the reduction axis of the products of row
    /// `i` of the packed A and column `j` of the packed B.
    pub open spec fn packed_dot(self, a: Seq<i64>, b: Seq<i64>, i: int, j: int, t: nat) -> i64
        decreases t,
    {
        if t == 0 {
            0
        } else {
            let s = (t - 1) as nat;
            self.packed_dot(a, b, i, j, s).wrapping_add(
                a[self.a_pack_spec().position(s as int, i)].wrapping_mul(
                    b[self.b_pack_spec().position(s as int, j)],
                ),
            )
        }
    }

    /// What a run leaves in C: entry (`i`, `j`) is the product of row `i` of A and column
    /// `j` of B.
    pub open spec fn product(self, a: Seq<i64>, b: Seq<i64>) -> Seq<i64> {
        Seq::new(
            (self.m * self.n) as nat,
            |idx: int| self.packed_dot(a, b, idx / (self.n as int), idx % (self.n as int), self.k as nat),
        )
    }

    pub fn new(kernel: Kernel, m: usize, k: usize, n: usize) -> (r: MatMatMulImpl)
        ensures
            r == (MatMatMulImpl { m, k, n, kernel }),
    {
        MatMatMulImpl { m, k, n, kernel }
    }

    pub fn a_pack(&self) -> (r: Packer)
        ensures
            r == self.a_pack_spec(),
    {
        Packer::new(
            self.k,
            self.kernel.mr,
            self.kernel.alignment_bytes_packed_a,
            self.kernel.end_padding_packed_a,
        )
    }

    pub fn b_pack(&self) -> (r: Packer)
        ensures
            r == self.b_pack_spec(),
    {
        Packer::new(
            self.k,
            self.kernel.nr,
            self.kernel.alignment_bytes_packed_b,
            self.kernel.end_padding_packed_b,
        )
    }

    /// Type of the accumulator.
    pub fn internal_type(&self) -> (r: DatumType)
        ensures
            r == DatumType::I64,
    {
        DatumType::I64
    }

    pub fn allocate_scratch_space(&self) -> (r: ScratchSpace)
        ensures
            r.internal_type == DatumType::I64,
            r.tile@.len() == 0,
    {
        ScratchSpace { internal_type: DatumType::I64, tile: Vec::new() }
    }

    pub fn can_use_scratch_space(&self, scratch: &ScratchSpace) -> (r: bool)
        ensures
            r == (scratch.internal_type == DatumType::I64),
    {
        matches!(scratch.internal_type, DatumType::I64)
    }
    /// Proof that a tile of the kernel computes the entries of the product it covers.
    pub proof fn lemma_tile_dot(self, a: Seq<i64>, b: Seq<i64>, ia: int, ib: int, r: int, c: int, t: nat)
        requires
            self.wf(),
            0 <= r < self.kernel.mr,
            0 <= c < self.kernel.nr,
            ia >= 0,
            ib >= 0,
        ensures
            tile_dot(
                a,
                ia * self.a_pack_spec().panel_len(),
                self.kernel.mr as int,
                b,
                ib * self.b_pack_spec().panel_len(),
                self.kernel.nr as int,
                r,
                c,
                t,
            ) == self.packed_dot(a, b, ia * self.kernel.mr + r, ib * self.kernel.nr + c, t),
        decreases t,
    {
        if t > 0 {
            let s = (t - 1) as nat;
            self.lemma_tile_dot(a, b, ia, ib, r, c, s);
            let mr = self.kernel.mr as int;
            let nr = self.kernel.nr as int;
            lemma_fundamental_div_mod_converse(ia * mr + r, mr, ia, r);
            lemma_fundamental_div_mod_converse(ib * nr + c, nr, ib, c);
        }
    }

    /// Proof that the packed product reads the dense matrices that were packed.
    pub proof fn lemma_packed_dot_dense(
        self,
        a: Seq<i64>,
        b: Seq<i64>,
        fill_a: i64,
        fill_b: i64,
        i: int,
        j: int,
        t: nat,
    )
        requires
            self.wf(),
            a.len() == self.m * self.k,
            b.len() == self.k * self.n,
            0 <= i < self.m,
            0 <= j < self.n,
            t <= self.k,
        ensures
            self.packed_dot(
                self.a_pack_spec().packed(a, self.m as nat, false, fill_a),
                self.b_pack_spec().packed(b, self.n as nat, true, fill_b),
                i,
                j,
                t,
            ) == dense_dot(a, b, self.k as int, self.n as int, i, j, t),
        decreases t,
    {
        if t > 0 {
            let s = (t - 1) as nat;
            self.lemma_packed_dot_dense(a, b, fill_a, fill_b, i, j, s);
            let ap = self.a_pack_spec();
            let bp = self.b_pack_spec();
            let mr = self.kernel.mr as int;
            let nr = self.kernel.nr as int;
            let pa = ap.panel_count(self.m as nat) as int;
            let pb = bp.panel_count(self.n as nat) as int;
            lemma_panel_count(mr, self.m as int, pa, 0);
            lemma_panel_count(nr, self.n as int, pb, 0);
            lemma_fundamental_div_mod(i, mr);
            lemma_mod_pos_bound(i, mr);
            lemma_fundamental_div_mod(j, nr);
            lemma_mod_pos_bound(j, nr);
            assert(0 <= i / mr < pa) by (nonlinear_arith)
                requires
                    i == mr * (i / mr) + i % mr,
                    0 <= i % mr < mr,
                    0 <= i < self.m,
                    pa * mr >= self.m,
            ;
            assert(0 <= j / nr < pb) by (nonlinear_arith)
                requires
                    j == nr * (j / nr) + j % nr,
                    0 <= j % nr < nr,
                    0 <= j < self.n,
                    pb * nr >= self.n,
            ;
            lemma_panel_position(mr, self.k + self.kernel.end_padding_packed_a, pa, i / mr, s as int, i % mr);
            lemma_panel_position(nr, self.k + self.kernel.end_padding_packed_b, pb, j / nr, s as int, j % nr);
            assert((i / mr) * mr + i % mr == i) by (nonlinear_arith)
                requires
                    i == mr * (i / mr) + i % mr,
            ;
            assert((j / nr) * nr + j % nr == j) by (nonlinear_arith)
                requires
                    j == nr * (j / nr) + j % nr,
            ;
        }
    }

    /// A run computes the matrix product of the dense matrices that were packed: entry
    /// (`i`, `j`) of C is the sum of `a[i][s] * b[s][j]` in the wrapping arithmetic of `i64`,
    /// and the exact sum wherever no partial sum overflows.
    pub proof fn lemma_run_is_matrix_product(
        self,
        a: Seq<i64>,
        b: Seq<i64>,
        fill_a: i64,
        fill_b: i64,
        i: int,
        j: int,
    )
        requires
            self.wf(),
            a.len() == self.m * self.k,
            b.len() == self.k * self.n,
            0 <= i < self.m,
            0 <= j < self.n,
        ensures
            self.product(
                self.a_pack_spec().packed(a, self.m as nat, false, fill_a),
                self.b_pack_spec().packed(b, self.n as nat, true, fill_b),
            )[i * self.n + j] == dense_dot(a, b, self.k as int, self.n as int, i, j, self.k as nat),
            fits_i64(a, b, self.k as int, self.n as int, i, j) ==> self.product(
                self.a_pack_spec().packed(a, self.m as nat, false, fill_a),
                self.b_pack_spec().packed(b, self.n as nat, true, fill_b),
            )[i * self.n + j] as int == exact_dot(a, b, self.k as int, self.n as int, i, j, self.k as nat),
    {
        self.lemma_packed_dot_dense(a, b, fill_a, fill_b, i, j, self.k as nat);
        lemma_cell_index(self.m as int, self.n as int, i, j);
        if fits_i64(a, b, self.k as int, self.n as int, i, j) {
            lemma_dense_dot_exact(a, b, self.k as int, self.n as int, i, j, self.k as nat);
        }
    }

    /// Runs the product with the given scratch space.
    ///
    /// Tiles are visited row block by row block. A tile that lies inside C in both
    /// directions is written into C directly; an edge tile is computed in the scratch tile
    /// and its valid corner copied into C.
    pub fn run_with_scratch_space(
        &self,
        scratch: &mut ScratchSpace,
        a: &Vec<i64>,
        b: &Vec<i64>,
        c: &mut Vec<i64>,
    ) -> (r: Result<(), MmmError>)
        requires
            self.wf(),
            a@.len() == self.a_pack_spec().len_spec(self.m as nat),
            b@.len() == self.b_pack_spec().len_spec(self.n as nat),
            old(c)@.len() == self.m * self.n,
        ensures
            final(scratch).internal_type == old(scratch).internal_type,
            r is Err <==> old(scratch).internal_type != DatumType::I64,
            r is Err ==> final(c)@ == old(c)@,
            r is Ok ==> final(c)@ == self.product(a@, b@),
    {
        if !self.can_use_scratch_space(scratch) {
            return Err(MmmError::WrongScratchSpaceType);
        }
        let m = self.m;
        let n = self.n;
        let k = self.k;
        let mr = self.kernel.mr;
        let nr = self.kernel.nr;
        let a_pack = self.a_pack();
        let b_pack = self.b_pack();
        let tiles_m = a_pack.panels(m);
        let tiles_n = b_pack.panels(n);
        let ghost pl_a = self.a_pack_spec().panel_len() as int;
        let ghost pl_b = self.b_pack_spec().panel_len() as int;
        let a_len = a.len();
        let b_len = b.len();
        let mut ia: usize = 0;
        while ia < tiles_m
            invariant
                self.wf(),
                m == self.m,
                n == self.n,
                k == self.k,
                mr == self.kernel.mr,
                nr == self.kernel.nr,
                a_pack == self.a_pack_spec(),
                b_pack == self.b_pack_spec(),
                tiles_m == a_pack.panel_count(m as nat),
                tiles_n == b_pack.panel_count(n as nat),
                pl_a == a_pack.panel_len(),
                pl_b == b_pack.panel_len(),
                a@.len() == tiles_m * pl_a,
                b@.len() == tiles_n * pl_b,
                c@.len() == m * n,
                a_len == a@.len(),
                b_len == b@.len(),
                scratch.internal_type == DatumType::I64,
                ia <= tiles_m,
                forall|i: int, j: int|
                    0 <= i < m && 0 <= j < n && i < ia * mr ==> #[trigger] cell(c@, n as int, i, j)
                        == self.packed_dot(a@, b@, i, j, k as nat),
            decreases tiles_m - ia,
        {
            proof {
                lemma_panel_count(mr as int, m as int, tiles_m as int, ia as int);
                assert(ia * pl_a + k * mr <= a@.len()) by (nonlinear_arith)
                    requires
                        ia < tiles_m,
                        a@.len() == tiles_m * pl_a,
                        pl_a == (k + self.kernel.end_padding_packed_a) * mr,
                ;
                assert(pl_a <= a@.len() && k + self.kernel.end_padding_packed_a <= pl_a)
                    by (nonlinear_arith)
                    requires
                        ia < tiles_m,
                        a@.len() == tiles_m * pl_a,
                        pl_a == (k + self.kernel.end_padding_packed_a) * mr,
                        mr >= 1,
                ;
                assert(ia * pl_a <= a@.len()) by (nonlinear_arith)
                    requires
                        ia < tiles_m,
                        a@.len() == tiles_m * pl_a,
                        pl_a >= 0,
                ;
            }
            let row0 = ia * mr;
            let a_off = ia * ((k + self.kernel.end_padding_packed_a) * mr);
            let rm = if m - row0 < mr {
                m - row0
            } else {
                mr
            };
            let mut ib: usize = 0;
            while ib < tiles_n
                invariant
                    self.wf(),
                    m == self.m,
                    n == self.n,
                    k == self.k,
                    mr == self.kernel.mr,
                    nr == self.kernel.nr,
                    a_pack == self.a_pack_spec(),
                    b_pack == self.b_pack_spec(),
                    tiles_m == a_pack.panel_count(m as nat),
                    tiles_n == b_pack.panel_count(n as nat),
                    pl_a == a_pack.panel_len(),
                    pl_b == b_pack.panel_len(),
                    a@.len() == tiles_m * pl_a,
                    b@.len() == tiles_n * pl_b,
                    c@.len() == m * n,
                    a_len == a@.len(),
                    b_len == b@.len(),
                    scratch.internal_type == DatumType::I64,
                    ia < tiles_m,
                    row0 == ia * mr,
                    row0 < m,
                    a_off == ia * pl_a,
                    a_off + k * mr <= a@.len(),
                    rm == if m - row0 < mr { m - row0 } else { mr as int },
                    ib <= tiles_n,
                    forall|i: int, j: int|
                        0 <= i < m && 0 <= j < n && (i < ia * mr || (i < ia * mr + mr && j < ib * nr))
                            ==> #[trigger] cell(c@, n as int, i, j) == self.packed_dot(a@, b@, i, j, k as nat),
                decreases tiles_n - ib,
            {
                proof {
                    lemma_panel_count(nr as int, n as int, tiles_n as int, ib as int);
                    assert(ib * pl_b + k * nr <= b@.len()) by (nonlinear_arith)
                        requires
                            ib < tiles_n,
                            b@.len() == tiles_n * pl_b,
                            pl_b == (k + self.kernel.end_padding_packed_b) * nr,
                    ;
                    assert(pl_b <= b@.len() && k + self.kernel.end_padding_packed_b <= pl_b)
                        by (nonlinear_arith)
                        requires
                            ib < tiles_n,
                            b@.len() == tiles_n * pl_b,
                            pl_b == (k + self.kernel.end_padding_packed_b) * nr,
                            nr >= 1,
                    ;
                    assert(ib * pl_b <= b@.len()) by (nonlinear_arith)
                        requires
                            ib < tiles_n,
                            b@.len() == tiles_n * pl_b,
                            pl_b >= 0,
                    ;
                }
                let col0 = ib * nr;
                let b_off = ib * ((k + self.kernel.end_padding_packed_b) * nr);
                let cn = if n - col0 < nr {
                    n - col0
                } else {
                    nr
                };
                let ghost before = c@;
                proof {
                    assert((ib + 1) * nr == ib * nr + nr) by (nonlinear_arith);
                }
                if rm == mr && cn == nr {
                    kernel_tile(k, a, a_off, mr, b, b_off, nr, c, m, n, row0, col0);
                    proof {
                        assert forall|i: int, j: int|
                            0 <= i < m && 0 <= j < n && (i < ia * mr || (i < ia * mr + mr && j < (ib
                                + 1) * nr)) implies #[trigger] cell(c@, n as int, i, j)
                            == self.packed_dot(a@, b@, i, j, k as nat) by {
                            if row0 <= i < row0 + mr && col0 <= j < col0 + nr {
                                self.lemma_tile_dot(
                                    a@,
                                    b@,
                                    ia as int,
                                    ib as int,
                                    i - row0,
                                    j - col0,
                                    k as nat,
                                );
                            } else {
                                assert(cell(c@, n as int, i, j) == cell(before, n as int, i, j));
                            }
                        }
                    }
                } else {
                    scratch.clear(mr * nr);
                    kernel_tile(k, a, a_off, mr, b, b_off, nr, &mut scratch.tile, mr, nr, 0, 0);
                    set_from_tile(c, m, n, row0, col0, rm, cn, &scratch.tile, mr, nr);
                    proof {
                        assert forall|i: int, j: int|
                            0 <= i < m && 0 <= j < n && (i < ia * mr || (i < ia * mr + mr && j < (ib
                                + 1) * nr)) implies #[trigger] cell(c@, n as int, i, j)
                            == self.packed_dot(a@, b@, i, j, k as nat) by {
                            if row0 <= i < row0 + rm && col0 <= j < col0 + cn {
                                assert(cell(c@, n as int, i, j) == cell(
                                    scratch.tile@,
                                    nr as int,
                                    i - row0,
                                    j - col0,
                                ));
                                self.lemma_tile_dot(
                                    a@,
                                    b@,
                                    ia as int,
                                    ib as int,
                                    i - row0,
                                    j - col0,
                                    k as nat,
                                );
                            } else {
                                assert(cell(c@, n as int, i, j) == cell(before, n as int, i, j));
                            }
                        }
                    }
                }
                ib = ib + 1;
            }
            proof {
                lemma_panel_count(nr as int, n as int, tiles_n as int, 0);
                assert((ia + 1) * mr == ia * mr + mr) by (nonlinear_arith);
                assert forall|i: int, j: int|
                    0 <= i < m && 0 <= j < n && i < (ia + 1) * mr implies #[trigger] cell(
                        c@,
                        n as int,
                        i,
                        j,
                    ) == self.packed_dot(a@, b@, i, j, k as nat) by {
                    assert(j < tiles_n * nr);
                }
            }
            ia = ia + 1;
        }
        proof {
            lemma_panel_count(mr as int, m as int, tiles_m as int, 0);
            assert forall|idx: int| 0 <= idx < m * n implies c@[idx] == self.product(a@, b@)[idx] by {
                let i = idx / (n as int);
                let j = idx % (n as int);
                assert(n > 0) by (nonlinear_arith)
                    requires
                        0 <= idx < m * n,
                ;
                lemma_fundamental_div_mod(idx, n as int);
                lemma_mod_pos_bound(idx, n as int);
                assert(0 <= i < m) by (nonlinear_arith)
                    requires
                        idx == n * i + j,
                        0 <= j < n,
                        0 <= idx < m * n,
                ;
                assert(i * n + j == idx) by (nonlinear_arith)
                    requires
                        idx == n * i + j,
                ;
                assert(cell(c@, n as int, i, j) == self.packed_dot(a@, b@, i, j, k as nat));
            }
            assert(c@ =~= self.product(a@, b@));
        }
        Ok(())
    }

    /// Runs the product with a scratch space of its own.
    pub fn run(&self, a: &Vec<i64>, b: &Vec<i64>, c: &mut Vec<i64>) -> (r: Result<(), MmmError>)
        requires
            self.wf(),
            a@.len() == self.a_pack_spec().len_spec(self.m as nat),
            b@.len() == self.b_pack_spec().len_spec(self.n as nat),
            old(c)@.len() == self.m * self.n,
        ensures
            r is Ok,
            final(c)@ == self.product(a@, b@),
    {
        let mut scratch = self.allocate_scratch_space();
        self.run_with_scratch_space(&mut scratch, a, b, c)
    }

}

/// `offsets[i] * size`, with indices past the end reading the last offset.
pub open spec fn byte_offsets(offsets: Seq<isize>, size: int, len: nat) -> Seq<isize> {
    Seq::new(
        len,
        |i: int|
            (offsets[if i < offsets.len() { i } else { offsets.len() - 1 }] * size) as isize,
    )
}

/// Every offset, scaled by `size`, fits in `isize`.
pub open spec fn scaled_fits(offsets: Seq<isize>, size: int) -> bool {
    forall|i: int| 0 <= i < offsets.len() ==> isize::MIN <= #[trigger] offsets[i] * size <= isize::MAX
}

/// Scales `offsets` by `size` and repeats the last one up to `len` entries.
fn scale_and_extend(offsets: &Vec<isize>, size: usize, len: usize) -> (r: Vec<isize>)
    requires
        offsets@.len() > 0,
        len >= offsets@.len(),
        size <= 8,
        scaled_fits(offsets@, size as int),
    ensures
        r@ == byte_offsets(offsets@, size as int, len as nat),
{
    let mut out: Vec<isize> = Vec::new();
    let last = offsets.len() - 1;
    let mut i: usize = 0;
    while i < len
        invariant
            offsets@.len() > 0,
            last == offsets@.len() - 1,
            size <= 8,
            scaled_fits(offsets@, size as int),
            i <= len,
            out@ == byte_offsets(offsets@, size as int, len as nat).subrange(0, i as int),
        decreases len - i,
    {
        let j = if i < offsets.len() {
            i
        } else {
            last
        };
        proof {
            assert(isize::MIN <= offsets@[j as int] * size <= isize::MAX);
        }
        out.push(offsets[j] * (size as isize));
        i = i + 1;
        proof {
            assert(out@ =~= byte_offsets(offsets@, size as int, len as nat).subrange(0, i as int));
        }
    }
    assert(out@ =~= byte_offsets(offsets@, size as int, len as nat));
    out
}

impl MatMatMulImpl {
    /// Store of a packed A: one panel of `mr` rows every `(k + end_padding) * mr` elements.
    pub fn a_packed(&self, dt: DatumType) -> (r: MatrixStoreSpec)
        requires
            self.wf(),
            (self.k + self.kernel.end_padding_packed_a) * self.kernel.mr * dt.size_spec() <= usize::MAX,
        ensures
            r matches MatrixStoreSpec::Packed { panel_bytes } && panel_bytes == (self.k
                + self.kernel.end_padding_packed_a) * self.kernel.mr * dt.size_spec(),
    {
        proof {
            assert((self.k + self.kernel.end_padding_packed_a) * self.kernel.mr <= (self.k + self.kernel.end_padding_packed_a)
                * self.kernel.mr * dt.size_spec()) by (nonlinear_arith)
                requires
                    dt.size_spec() >= 1,
            ;
            assert(self.k + self.kernel.end_padding_packed_a <= (self.k + self.kernel.end_padding_packed_a) * self.kernel.mr) by (nonlinear_arith)
                requires
                    self.kernel.mr >= 1,
            ;
        }
        MatrixStoreSpec::Packed { panel_bytes: (self.k + self.kernel.end_padding_packed_a) * self.kernel.mr * dt.size_of() }
    }

    /// Store of a packed B: one panel of `nr` columns every `(k + end_padding) * nr` elements.
    pub fn b_packed(&self, dt: DatumType) -> (r: MatrixStoreSpec)
        requires
            self.wf(),
            (self.k + self.kernel.end_padding_packed_b) * self.kernel.nr * dt.size_spec() <= usize::MAX,
        ensures
            r matches MatrixStoreSpec::Packed { panel_bytes } && panel_bytes == (self.k
                + self.kernel.end_padding_packed_b) * self.kernel.nr * dt.size_spec(),
    {
        proof {
            assert((self.k + self.kernel.end_padding_packed_b) * self.kernel.nr <= (self.k + self.kernel.end_padding_packed_b)
                * self.kernel.nr * dt.size_spec()) by (nonlinear_arith)
                requires
                    dt.size_spec() >= 1,
            ;
            assert(self.k + self.kernel.end_padding_packed_b <= (self.k + self.kernel.end_padding_packed_b) * self.kernel.nr) by (nonlinear_arith)
                requires
                    self.kernel.nr >= 1,
            ;
        }
        MatrixStoreSpec::Packed { panel_bytes: (self.k + self.kernel.end_padding_packed_b) * self.kernel.nr * dt.size_of() }
    }

    /// Store of a B read through row and column offsets, in items of type `dt`. The column
    /// offsets are extended to a whole number of panels by repeating the last one, and the
    /// row offsets by four more copies of the last one, so that the kernel can unroll.
    pub fn b_from_data_and_offsets(&self, dt: DatumType, rows_offsets: &Vec<isize>, cols_offsets: &Vec<isize>) -> (r:
        MatrixStoreSpec)
        requires
            self.wf(),
            rows_offsets@.len() > 0,
            cols_offsets@.len() > 0,
            rows_offsets@.len() + 4 <= usize::MAX,
            cols_offsets@.len() + self.kernel.nr <= usize::MAX,
            scaled_fits(rows_offsets@, dt.size_spec() as int),
            scaled_fits(cols_offsets@, dt.size_spec() as int),
        ensures
            r matches MatrixStoreSpec::OffsetsAndPtrs { row_byte_offsets, col_byte_offsets, nr } && nr
                == self.kernel.nr && row_byte_offsets@ == byte_offsets(
                rows_offsets@,
                dt.size_spec() as int,
                (rows_offsets@.len() + 4) as nat,
            ) && col_byte_offsets@ == byte_offsets(
                cols_offsets@,
                dt.size_spec() as int,
                ((cols_offsets@.len() + self.kernel.nr - 1) / (self.kernel.nr as int) * self.kernel.nr) as nat,
            ),
    {
        let nr = self.kernel.nr;
        let size = dt.size_of();
        let q = (cols_offsets.len() + nr - 1) / nr;
        proof {
            lemma_fundamental_div_mod((cols_offsets@.len() + nr - 1) as int, nr as int);
            lemma_mod_pos_bound((cols_offsets@.len() + nr - 1) as int, nr as int);
            assert(q * nr <= cols_offsets@.len() + nr - 1 && q * nr >= cols_offsets@.len()) by (nonlinear_arith)
                requires
                    cols_offsets@.len() + nr - 1 == nr * q + (cols_offsets@.len() + nr - 1) % (nr as int),
                    0 <= (cols_offsets@.len() + nr - 1) % (nr as int) < nr,
            ;
        }
        let wanted = q * nr;
        let col_byte_offsets = scale_and_extend(cols_offsets, size, wanted);
        let row_byte_offsets = scale_and_extend(rows_offsets, size, rows_offsets.len() + 4);
        MatrixStoreSpec::OffsetsAndPtrs { row_byte_offsets, col_byte_offsets, nr }
    }

    /// Store of C as a view of a tensor, tiled by the kernel.
    pub fn c_view(&self) -> (r: MatrixStoreSpec)
        ensures
            r matches MatrixStoreSpec::View { axes, mr, nr } && axes is None && mr == self.kernel.mr && nr
                == self.kernel.nr,
    {
        MatrixStoreSpec::View { axes: None, mr: self.kernel.mr, nr: self.kernel.nr }
    }

    /// Store of C as a view of a tensor whose rows and columns are the given axes.
    pub fn c_view_with_axis(&self, m_axis: usize, n_axis: usize) -> (r: MatrixStoreSpec)
        ensures
            r matches MatrixStoreSpec::View { axes, mr, nr } && axes == Some((m_axis, n_axis)) && mr
                == self.kernel.mr && nr == self.kernel.nr,
    {
        MatrixStoreSpec::View { axes: Some((m_axis, n_axis)), mr: self.kernel.mr, nr: self.kernel.nr }
    }

    /// Store of C with explicit strides, in items of C's type (`i64`).
    pub fn c_from_data_and_strides(&self, row_stride: isize, col_stride: isize) -> (r: MatrixStoreSpec)
        requires
            isize::MIN <= row_stride * 8 <= isize::MAX,
            isize::MIN <= col_stride * 8 <= isize::MAX,
        ensures
            r matches MatrixStoreSpec::Strides {
                row_byte_stride,
                col_byte_stride,
                row_item_stride,
                col_item_stride,
                mr,
                nr,
            } && row_byte_stride == row_stride * 8 && col_byte_stride == col_stride * 8 && row_item_stride
                == row_stride && col_item_stride == col_stride && mr == self.kernel.mr && nr == self.kernel.nr,
    {
        let size = DatumType::I64.size_of() as isize;
        MatrixStoreSpec::Strides {
            row_byte_stride: row_stride * size,
            col_byte_stride: col_stride * size,
            row_item_stride: row_stride,
            col_item_stride: col_stride,
            mr: self.kernel.mr,
            nr: self.kernel.nr,
        }
    }
}

/// Proof that the wrapped sum of products depends only on the entries it reads.
pub proof fn lemma_dense_dot_same_entries(
    a: Seq<i64>,
    b: Seq<i64>,
    n: int,
    a2: Seq<i64>,
    b2: Seq<i64>,
    n2: int,
    k: int,
    i: int,
    j: int,
    t: nat,
)
    requires
        t <= k,
        forall|s: int| 0 <= s < k ==> #[trigger] a2[i * k + s] == a[i * k + s],
        forall|s: int| 0 <= s < k ==> #[trigger] b2[s * n2 + j] == b[s * n + j],
    ensures
        dense_dot(a2, b2, k, n2, i, j, t) == dense_dot(a, b, k, n, i, j, t),
    decreases t,
{
    if t > 0 {
        let s = (t - 1) as int;
        lemma_dense_dot_same_entries(a, b, n, a2, b2, n2, k, i, j, (t - 1) as nat);
        assert(a2[i * k + s] == a[i * k + s]);
        assert(b2[s * n2 + j] == b[s * n + j]);
    }
}

impl MatMatMulImpl {
    /// A product whose dimensions are not multiples of the tile agrees, on every entry, with
    /// the product of larger operands that extend it (for instance padded with zeros up to
    /// whole tiles) and then trimmed back.
    pub proof fn lemma_edge_tiles_match_extended(
        self,
        big: MatMatMulImpl,
        a: Seq<i64>,
        b: Seq<i64>,
        a2: Seq<i64>,
        b2: Seq<i64>,
        i: int,
        j: int,
    )
        requires
            self.wf(),
            big.kernel == self.kernel,
            big.k == self.k,
            self.m <= big.m,
            self.n <= big.n,
            a.len() == self.m * self.k,
            b.len() == self.k * self.n,
            a2.len() == big.m * big.k,
            b2.len() == big.k * big.n,
            forall|r: int, s: int| 0 <= r < self.m && 0 <= s < self.k ==> #[trigger] a2[r * self.k + s] == a[r
                * self.k + s],
            forall|s: int, c: int| 0 <= s < self.k && 0 <= c < self.n ==> #[trigger] b2[s * big.n + c] == b[s
                * self.n + c],
            0 <= i < self.m,
            0 <= j < self.n,
        ensures
            self.product(
                self.a_pack_spec().packed(a, self.m as nat, false, 0),
                self.b_pack_spec().packed(b, self.n as nat, true, 0),
            )[i * self.n + j] == big.product(
                big.a_pack_spec().packed(a2, big.m as nat, false, 0),
                big.b_pack_spec().packed(b2, big.n as nat, true, 0),
            )[i * big.n + j],
    {
        self.lemma_run_is_matrix_product(a, b, 0, 0, i, j);
        big.lemma_run_is_matrix_product(a2, b2, 0, 0, i, j);
        assert forall|s: int| 0 <= s < self.k implies #[trigger] a2[i * self.k + s] == a[i * self.k + s] by {
            assert(a2[i * self.k + s] == a[i * self.k + s]);
        }
        assert forall|s: int| 0 <= s < self.k implies #[trigger] b2[s * big.n + j] == b[s * self.n + j] by {
            assert(b2[s * big.n + j] == b[s * self.n + j]);
        }
        lemma_dense_dot_same_entries(
            a,
            b,
            self.n as int,
            a2,
            b2,
            big.n as int,
            self.k as int,
            i,
            j,
            self.k as nat,
        );
    }
}

/// A matrix-product driver: the packings it expects of its operands and its accumulator type.
pub trait MatMatMul {
    fn a_pack(&self) -> Packer;

    fn b_pack(&self) -> Packer;

    fn internal_type(&self) -> DatumType;
}

impl MatMatMul for MatMatMulImpl {
    fn a_pack(&self) -> Packer {
        MatMatMulImpl::a_pack(self)
    }

    fn b_pack(&self) -> Packer {
        MatMatMulImpl::b_pack(self)
    }

    fn internal_type(&self) -> DatumType {
        MatMatMulImpl::internal_type(self)
    }
}

} // verus!
