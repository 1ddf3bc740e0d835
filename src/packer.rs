use vstd::arithmetic::div_mod::{lemma_fundamental_div_mod, lemma_fundamental_div_mod_converse, lemma_mod_pos_bound};
use vstd::prelude::*;

verus! {

/// Panel layout of one side of a matrix product.
///
/// A matrix with `k` rows (the reduction axis) and `mn` columns is cut in panels of
/// `panel_width` columns. Each panel stores `k + end_padding` rows of `panel_width`
/// consecutive values, and panels follow each other in column order.
#[derive(Clone, Copy, Debug, PartialEq, Eq)]
pub struct Packer {
    pub k: usize,
    pub panel_width: usize,
    pub alignment: usize,
    pub end_padding: usize,
}

/// Proof that panel coordinates map one to one onto positions in a packed buffer.
pub proof fn lemma_panel_position(width: int, rows: int, panels: int, p: int, row: int, c: int)
    requires
        0 <= p < panels,
        0 <= row < rows,
        0 <= c < width,
    ensures
        0 <= row * width + c < rows * width,
        0 <= p * (rows * width) + row * width + c < panels * (rows * width),
        (p * (rows * width) + row * width + c) / (rows * width) == p,
        (p * (rows * width) + row * width + c) % (rows * width) == row * width + c,
        (row * width + c) / width == row,
        (row * width + c) % width == c,
{
    assert(0 <= row * width + c < rows * width) by (nonlinear_arith)
        requires
            0 <= row < rows,
            0 <= c < width,
    ;
    assert(0 <= p * (rows * width) + row * width + c < panels * (rows * width)) by (nonlinear_arith)
        requires
            0 <= p < panels,
            0 <= row * width + c < rows * width,
    ;
    lemma_fundamental_div_mod_converse(p * (rows * width) + row * width + c, rows * width, p, row * width + c);
    lemma_fundamental_div_mod_converse(row * width + c, width, row, c);
}


/// Unpacking the packed form of a dense matrix gives the matrix back: the columns that
/// repeat the last one and the end-padding rows are the only values that unpacking drops.
pub proof fn lemma_pack_round_trip<T>(packer: Packer, m: Seq<T>, mn: nat, fill: T)
    requires
        packer.wf(),
        m.len() == packer.k * mn,
    ensures
        packer.unpacked(packer.packed(m, mn, true, fill), mn) == m,
{
    let w = packer.panel_width as int;
    let rows = (packer.k + packer.end_padding) as int;
    let panels = packer.panel_count(mn) as int;
    let packed = packer.packed(m, mn, true, fill);
    let un = packer.unpacked(packed, mn);
    assert forall|idx: int| 0 <= idx < m.len() implies un[idx] == m[idx] by {
        let row = idx / (mn as int);
        let col = idx % (mn as int);
        assert(mn > 0) by (nonlinear_arith)
            requires
                0 <= idx < m.len(),
                m.len() == packer.k * mn,
        ;
        vstd::arithmetic::div_mod::lemma_fundamental_div_mod(idx, mn as int);
        vstd::arithmetic::div_mod::lemma_mod_pos_bound(idx, mn as int);
        assert(row < packer.k) by (nonlinear_arith)
            requires
                idx == mn * row + col,
                0 <= col,
                idx < packer.k * mn,
                mn > 0,
        ;
        assert(row >= 0) by (nonlinear_arith)
            requires
                idx == mn * row + col,
                col < mn,
                idx >= 0,
                mn > 0,
        ;
        let p = col / w;
        let c = col % w;
        vstd::arithmetic::div_mod::lemma_fundamental_div_mod(col, w);
        vstd::arithmetic::div_mod::lemma_mod_pos_bound(col, w);
        vstd::arithmetic::div_mod::lemma_fundamental_div_mod(mn + w - 1, w);
        vstd::arithmetic::div_mod::lemma_mod_pos_bound(mn + w - 1, w);
        assert(0 <= p < panels) by (nonlinear_arith)
            requires
                col == w * p + c,
                0 <= c < w,
                0 <= col < mn,
                mn + w - 1 == w * panels + (mn + w - 1) % w,
                (mn + w - 1) % w < w,
                w > 0,
        ;
        lemma_panel_position(w, rows, panels, p, row, c);
        assert(p * w + c == col) by (nonlinear_arith)
            requires
                col == w * p + c,
        ;
        assert(row * mn + col == idx) by (nonlinear_arith)
            requires
                idx == mn * row + col,
        ;
    }
    assert(un =~= m);
}

/// Proof that `panels` panels of `w` columns cover `mn` columns, and that every panel but
/// the ones past the end starts before column `mn`.
pub proof fn lemma_panel_count(w: int, mn: int, panels: int, p: int)
    requires
        w > 0,
        mn >= 0,
        panels == (mn + w - 1) / w,
    ensures
        panels * w >= mn,
        panels >= 0,
        0 <= p < panels ==> p * w < mn,
{
    lemma_fundamental_div_mod(mn + w - 1, w);
    lemma_mod_pos_bound(mn + w - 1, w);
    assert(panels * w >= mn && panels >= 0) by (nonlinear_arith)
        requires
            mn + w - 1 == w * panels + (mn + w - 1) % w,
            0 <= (mn + w - 1) % w < w,
            mn >= 0,
            w > 0,
    ;
    if 0 <= p < panels {
        assert(p * w < mn) by (nonlinear_arith)
            requires
                mn + w - 1 == w * panels + (mn + w - 1) % w,
                0 <= (mn + w - 1) % w < w,
                0 <= p < panels,
                w > 0,
        ;
    }
}

impl Packer {
    pub open spec fn wf(self) -> bool {
        self.panel_width > 0 && self.alignment > 0
    }

    pub open spec fn panel_count(self, mn: nat) -> nat {
        ((mn + self.panel_width - 1) / self.panel_width as int) as nat
    }

    /// Number of values in one panel.
    pub open spec fn panel_len(self) -> nat {
        ((self.k + self.end_padding) * self.panel_width) as nat
    }

    pub open spec fn len_spec(self, mn: nat) -> nat {
        self.panel_count(mn) * self.panel_len()
    }

    /// Value of logical row `row`, column `col` in a dense matrix `m` of `k` rows and `mn`
    /// columns, stored with `k` slowest when `k_outer`, else with `mn` slowest.
    pub open spec fn dense_at<T>(self, m: Seq<T>, mn: nat, k_outer: bool, row: int, col: int) -> T {
        if k_outer {
            m[row * mn + col]
        } else {
            m[col * self.k + row]
        }
    }

    /// Value at position `idx` of the packed form of `m`. Columns past the last one repeat
    /// the last column, and the end-padding rows repeat the last row, `k - 1`. Only a matrix
    /// without rows (`k == 0`) has its panels hold `fill`.
    pub open spec fn packed_at<T>(self, m: Seq<T>, mn: nat, k_outer: bool, fill: T, idx: int) -> T {
        let p = idx / (self.panel_len() as int);
        let rem = idx % (self.panel_len() as int);
        let row = rem / (self.panel_width as int);
        let c = rem % (self.panel_width as int);
        let col = p * self.panel_width + c;
        if self.k > 0 {
            self.dense_at(
                m,
                mn,
                k_outer,
                if row < self.k { row } else { self.k - 1 },
                if col < mn { col } else { mn - 1 },
            )
        } else {
            fill
        }
    }

    pub open spec fn packed<T>(self, m: Seq<T>, mn: nat, k_outer: bool, fill: T) -> Seq<T> {
        Seq::new(self.len_spec(mn), |idx: int| self.packed_at(m, mn, k_outer, fill, idx))
    }

    /// Position in the packed buffer of logical row `row` and column `col`.
    pub open spec fn position(self, row: int, col: int) -> int {
        (col / (self.panel_width as int)) * (self.panel_len() as int) + row * self.panel_width
            + col % (self.panel_width as int)
    }

    /// The dense `k` by `mn` matrix, `k` slowest, that a packed buffer stands for.
    pub open spec fn unpacked<T>(self, packed: Seq<T>, mn: nat) -> Seq<T> {
        Seq::new(
            (self.k * mn) as nat,
            |idx: int| packed[self.position(idx / (mn as int), idx % (mn as int))],
        )
    }

    pub fn new(k: usize, panel_width: usize, alignment: usize, end_padding: usize) -> (r: Packer)
        ensures
            r == (Packer { k, panel_width, alignment, end_padding }),
    {
        Packer { k, panel_width, alignment, end_padding }
    }

    pub fn alignment(&self) -> (r: usize)
        ensures
            r == self.alignment,
    {
        self.alignment
    }

    pub fn panels(&self, mn: usize) -> (r: usize)
        requires
            self.wf(),
        ensures
            r == self.panel_count(mn as nat),
    {
        let w = self.panel_width;
        let q = mn / w;
        proof {
            vstd::arithmetic::div_mod::lemma_fundamental_div_mod(mn as int, w as int);
            vstd::arithmetic::div_mod::lemma_mod_pos_bound(mn as int, w as int);
            if mn % w != 0 {
                assert(q < usize::MAX) by (nonlinear_arith)
                    requires
                        mn == w * q + mn % w,
                        w >= 2,
                        mn <= usize::MAX,
                        q >= 0,
                ;
            }
        }
        let r: usize = if mn % w != 0 { q + 1 } else { q };
        assert(r == self.panel_count(mn as nat)) by {
            assert(q * w == w * q) by (nonlinear_arith);
            assert((q + 1) * w == q * w + w) by (nonlinear_arith);
            lemma_fundamental_div_mod_converse(mn as int, w as int, q as int, (mn % w) as int);
            if mn % w != 0 {
                lemma_fundamental_div_mod_converse(
                    mn + w - 1,
                    w as int,
                    q + 1,
                    (mn % w) - 1,
                );
            } else {
                lemma_fundamental_div_mod_converse(mn + w - 1, w as int, q as int, w - 1);
            }
        }
        r
    }

    /// Number of values in the packed form of a matrix with `mn` columns.
    pub fn len(&self, mn: usize) -> (r: usize)
        requires
            self.wf(),
            self.len_spec(mn as nat) <= usize::MAX,
        ensures
            r == self.len_spec(mn as nat),
    {
        let panels = self.panels(mn);
        if panels == 0 {
            assert(self.len_spec(mn as nat) == 0) by (nonlinear_arith)
                requires
                    self.len_spec(mn as nat) == panels * self.panel_len(),
                    panels == 0,
            ;
            return 0;
        }
        proof {
            assert(self.panel_len() <= panels * self.panel_len()) by (nonlinear_arith)
                requires
                    panels >= 1,
            ;
            assert((self.k + self.end_padding) <= self.panel_len()) by (nonlinear_arith)
                requires
                    self.panel_width >= 1,
                    self.panel_len() == (self.k + self.end_padding) * self.panel_width,
            ;
        }
        panels * ((self.k + self.end_padding) * self.panel_width)
    }

    /// Packs the dense matrix `m` of `k` rows and `mn` columns (`k` slowest when `k_outer`).
    /// The columns of the last panel past `mn` repeat column `mn - 1`, and the end-padding
    /// rows of each panel repeat row `k - 1`; `fill` is used only when `k == 0`.
    pub fn pack<T: Copy>(&self, m: &Vec<T>, mn: usize, k_outer: bool, fill: T) -> (r: Vec<T>)
        requires
            self.wf(),
            m@.len() == self.k * mn,
            self.len_spec(mn as nat) <= usize::MAX,
        ensures
            r@ == self.packed(m@, mn as nat, k_outer, fill),
    {
        let panels = self.panels(mn);
        let w = self.panel_width;
        let k = self.k;
        let m_len = m.len();
        let ghost rows = (self.k + self.end_padding) as int;
        let mut out: Vec<T> = Vec::new();
        let mut p: usize = 0;
        while p < panels
            invariant
                self.wf(),
                m@.len() == k * mn,
                m_len == m@.len(),
                panels == self.panel_count(mn as nat),
                w == self.panel_width,
                k == self.k,
                rows == self.k + self.end_padding,
                self.len_spec(mn as nat) <= usize::MAX,
                p <= panels,
                out@.len() == p * self.panel_len(),
                forall|i: int|
                    0 <= i < out@.len() ==> out@[i] == self.packed_at(m@, mn as nat, k_outer, fill, i),
            decreases panels - p,
        {
            proof {
                assert(rows <= self.panel_len()) by (nonlinear_arith)
                    requires
                        self.panel_width >= 1,
                        self.panel_len() == rows * self.panel_width,
                        rows >= 0,
                ;
                assert(self.panel_len() <= self.len_spec(mn as nat)) by (nonlinear_arith)
                    requires
                        p < panels,
                        self.len_spec(mn as nat) == panels * self.panel_len(),
                ;
            }
            let rows_exec = self.k + self.end_padding;
            proof {
                if mn == 0 {
                    lemma_fundamental_div_mod_converse(w - 1, w as int, 0, w - 1);
                }
            }
            assert(mn > 0);
            let mut row: usize = 0;
            while row < rows_exec
                invariant
                    self.wf(),
                    m@.len() == k * mn,
                m_len == m@.len(),
                    panels == self.panel_count(mn as nat),
                    w == self.panel_width,
                    k == self.k,
                    rows == rows_exec,
                    rows == self.k + self.end_padding,
                    self.len_spec(mn as nat) <= usize::MAX,
                    p < panels,
                    mn > 0,
                    row <= rows,
                    out@.len() == p * self.panel_len() + row * w,
                    forall|i: int|
                        0 <= i < out@.len() ==> out@[i] == self.packed_at(
                            m@,
                            mn as nat,
                            k_outer,
                            fill,
                            i,
                        ),
                decreases rows - row,
            {
                let mut c: usize = 0;
                while c < w
                    invariant
                        self.wf(),
                        m@.len() == k * mn,
                m_len == m@.len(),
                        panels == self.panel_count(mn as nat),
                        w == self.panel_width,
                        k == self.k,
                        rows == self.k + self.end_padding,
                        self.len_spec(mn as nat) <= usize::MAX,
                        p < panels,
                        mn > 0,
                        row < rows,
                        c <= w,
                        out@.len() == p * self.panel_len() + row * w + c,
                        forall|i: int|
                            0 <= i < out@.len() ==> out@[i] == self.packed_at(
                                m@,
                                mn as nat,
                                k_outer,
                                fill,
                                i,
                            ),
                    decreases w - c,
                {
                    proof {
                        lemma_panel_position(w as int, rows, panels as int, p as int, row as int, c as int);
                        assert(p * w + c < panels * w) by (nonlinear_arith)
                            requires
                                p < panels,
                                c < w,
                        ;
                        assert(panels * w <= mn + w) by {
                            vstd::arithmetic::div_mod::lemma_fundamental_div_mod(
                                (mn + w - 1) as int,
                                w as int,
                            );
                            vstd::arithmetic::div_mod::lemma_mod_pos_bound((mn + w - 1) as int, w as int);
                            assert(panels * w == w * panels) by (nonlinear_arith);
                        }
                        assert(panels * w <= self.len_spec(mn as nat)) by (nonlinear_arith)
                            requires
                                self.len_spec(mn as nat) == panels * (rows * w),
                                rows >= 1,
                                w >= 1,
                        ;
                    }
                    let v: T = if k > 0 {
                        let row = if row < k {
                            row
                        } else {
                            k - 1
                        };
                        let col = p * w + c;
                        let col = if col < mn {
                            col
                        } else {
                            mn - 1
                        };
                        if k_outer {
                            proof {
                                assert(row * mn + col < k * mn) by (nonlinear_arith)
                                    requires
                                        row < k,
                                        col < mn,
                                ;
                            }
                            let base = row * mn;
                            m[base + col]
                        } else {
                            proof {
                                assert(col * k + row < mn * k) by (nonlinear_arith)
                                    requires
                                        row < k,
                                        col < mn,
                                ;
                                assert(mn * k == k * mn) by (nonlinear_arith);
                            }
                            m[col * k + row]
                        }
                    } else {
                        fill
                    };
                    proof {
                        let pos = p * self.panel_len() + row * w + c;
                        assert(self.packed_at(m@, mn as nat, k_outer, fill, pos) == v);
                    }
                    out.push(v);
                    c = c + 1;
                }
                assert(p * self.panel_len() + row * w + w == p * self.panel_len() + (row + 1) * w)
                    by (nonlinear_arith);
                row = row + 1;
            }
            assert(p * self.panel_len() + rows * w == (p + 1) * self.panel_len()) by (nonlinear_arith)
                requires
                    self.panel_len() == rows * w,
            ;
            p = p + 1;
        }
        proof {
            assert(out@ =~= self.packed(m@, mn as nat, k_outer, fill));
        }
        out
    }
}

/// Streaming writer of a packed matrix: takes the `k * mn` values of a dense matrix in
/// `k`-outer order, then lays them out in panels.
pub struct KOutWriter<T> {
    pub packer: Packer,
    pub mn: usize,
    pub written: Vec<T>,
}

impl Packer {
    pub fn write_with_k_outer<T>(&self, mn: usize) -> (w: KOutWriter<T>)
        ensures
            w.packer == *self,
            w.mn == mn,
            w.written@.len() == 0,
    {
        KOutWriter { packer: *self, mn, written: Vec::new() }
    }
}

impl<T: Copy> KOutWriter<T> {
    pub fn write(&mut self, v: T)
        ensures
            final(self).packer == old(self).packer,
            final(self).mn == old(self).mn,
            final(self).written@ == old(self).written@.push(v),
    {
        self.written.push(v);
    }

    /// Lays out what was written; `fill` is used only when `k == 0`.
    pub fn finish(self, fill: T) -> (r: Vec<T>)
        requires
            self.packer.wf(),
            self.written@.len() == self.packer.k * self.mn,
            self.packer.len_spec(self.mn as nat) <= usize::MAX,
        ensures
            r@ == self.packer.packed(self.written@, self.mn as nat, true, fill),
    {
        self.packer.pack(&self.written, self.mn, true, fill)
    }
}

impl Packer {
    /// Number of values in the packed form of a matrix with `mn` columns, or `None` when it
    /// does not fit in `usize`.
    pub fn checked_len(&self, mn: usize) -> (r: Option<usize>)
        requires
            self.wf(),
        ensures
            r matches Some(l) ==> l == self.len_spec(mn as nat),
            r is None <==> self.len_spec(mn as nat) > usize::MAX,
    {
        let panels = self.panels(mn);
        if panels == 0 {
            assert(self.len_spec(mn as nat) == 0) by (nonlinear_arith)
                requires
                    self.len_spec(mn as nat) == panels * self.panel_len(),
                    panels == 0,
            ;
            return Some(0);
        }
        proof {
            assert(self.panel_len() <= self.len_spec(mn as nat)) by (nonlinear_arith)
                requires
                    self.len_spec(mn as nat) == panels * self.panel_len(),
                    panels >= 1,
            ;
            assert(self.k + self.end_padding <= self.panel_len()) by (nonlinear_arith)
                requires
                    self.panel_len() == (self.k + self.end_padding) * self.panel_width,
                    self.panel_width >= 1,
            ;
        }
        let rows = match self.k.checked_add(self.end_padding) {
            Some(x) => x,
            None => {
                return None;
            },
        };
        let pl = match rows.checked_mul(self.panel_width) {
            Some(x) => x,
            None => {
                return None;
            },
        };
        panels.checked_mul(pl)
    }
}

} // verus!
