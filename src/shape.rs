use vstd::prelude::*;

verus! {

/// Product of `dims[r..]`.
pub open spec fn suffix_prod(dims: Seq<usize>, r: int) -> nat
    decreases dims.len() - r,
{
    if r < 0 || r >= dims.len() {
        1
    } else {
        dims[r] as nat * suffix_prod(dims, r + 1)
    }
}

/// Product of `dims[..len]`.
pub open spec fn prefix_prod(dims: Seq<usize>, len: int) -> nat
    decreases len,
{
    if len <= 0 {
        1
    } else {
        prefix_prod(dims, len - 1) * dims[len - 1] as nat
    }
}

/// Coordinate along axis `r` of the `idx`-th point of the row-major lattice `dims`.
pub open spec fn unravel_at(dims: Seq<usize>, idx: int, r: int) -> int {
    (idx / (suffix_prod(dims, r + 1) as int)) % (dims[r] as int)
}

/// Row-major position of the coordinates `z[..len]` in a tensor of shape `dims`.
pub open spec fn horner(dims: Seq<usize>, z: Seq<int>, len: int) -> int
    decreases len,
{
    if len <= 0 {
        0
    } else {
        horner(dims, z, len - 1) * dims[len - 1] + z[len - 1]
    }
}

pub open spec fn in_lattice(dims: Seq<usize>, z: Seq<int>) -> bool {
    &&& z.len() == dims.len()
    &&& forall|r: int| 0 <= r < dims.len() ==> 0 <= #[trigger] z[r] < dims[r]
}

/// Proof that coordinates inside a lattice have a row-major position inside it.
pub proof fn lemma_horner_bound(dims: Seq<usize>, z: Seq<int>, len: int)
    requires
        0 <= len <= dims.len(),
        in_lattice(dims, z),
    ensures
        0 <= horner(dims, z, len) < prefix_prod(dims, len),
    decreases len,
{
    if len > 0 {
        lemma_horner_bound(dims, z, len - 1);
        let h = horner(dims, z, len - 1);
        let p = prefix_prod(dims, len - 1) as int;
        let d = dims[len - 1] as int;
        let y = z[len - 1];
        assert(0 <= y < d);
        assert(0 <= h * d + y < p * d) by (nonlinear_arith)
            requires
                0 <= h < p,
                0 <= y < d,
        ;
    }
}

/// Proof that a lattice has at least one point on each axis when it has any point.
pub proof fn lemma_suffix_prod_pos(dims: Seq<usize>, r: int)
    requires
        0 <= r,
        forall|i: int| r <= i < dims.len() ==> dims[i] > 0,
    ensures
        suffix_prod(dims, r) > 0,
    decreases dims.len() - r,
{
    if r < dims.len() {
        lemma_suffix_prod_pos(dims, r + 1);
        assert(dims[r] as nat * suffix_prod(dims, r + 1) > 0) by (nonlinear_arith)
            requires
                dims[r] > 0,
                suffix_prod(dims, r + 1) > 0,
        ;
    }
}

/// Proof that a lattice with an empty axis has no point.
pub proof fn lemma_suffix_prod_zero(dims: Seq<usize>, r: int, z: int)
    requires
        0 <= r <= z < dims.len(),
        dims[z] == 0,
    ensures
        suffix_prod(dims, r) == 0,
    decreases dims.len() - r,
{
    if r < z {
        lemma_suffix_prod_zero(dims, r + 1, z);
        assert(dims[r] as nat * suffix_prod(dims, r + 1) == 0) by (nonlinear_arith)
            requires
                suffix_prod(dims, r + 1) == 0,
        ;
    } else {
        assert(dims[r] as nat * suffix_prod(dims, r + 1) == 0) by (nonlinear_arith)
            requires
                dims[r] == 0,
        ;
    }
}

/// Product of the values of `dims`, or `None` when it does not fit in `usize`.
pub fn checked_product(dims: &Vec<usize>) -> (r: Option<usize>)
    ensures
        r matches Some(p) ==> p == suffix_prod(dims@, 0),
        r is None <==> suffix_prod(dims@, 0) > usize::MAX,
{
    let mut z: usize = 0;
    while z < dims.len()
        invariant
            z <= dims@.len(),
            forall|i: int| 0 <= i < z ==> dims@[i] > 0,
        decreases dims@.len() - z,
    {
        if dims[z] == 0 {
            proof {
                lemma_suffix_prod_zero(dims@, 0, z as int);
            }
            return Some(0);
        }
        z = z + 1;
    }
    let mut acc: usize = 1;
    let mut i: usize = dims.len();
    while i > 0
        invariant
            i <= dims@.len(),
            acc == suffix_prod(dims@, i as int),
            forall|x: int| 0 <= x < dims@.len() ==> dims@[x] > 0,
        decreases i,
    {
        i = i - 1;
        match dims[i].checked_mul(acc) {
            Some(p) => {
                acc = p;
            },
            None => {
                proof {
                    lemma_suffix_prod_ge(dims@, 0, i as int);
                }
                return None;
            },
        }
    }
    Some(acc)
}

/// Proof that a product of positive values is at least each of its suffix products.
pub proof fn lemma_suffix_prod_ge(dims: Seq<usize>, r: int, s: int)
    requires
        0 <= r <= s <= dims.len(),
        forall|x: int| 0 <= x < dims.len() ==> dims[x] > 0,
    ensures
        suffix_prod(dims, r) >= suffix_prod(dims, s),
    decreases s - r,
{
    if r < s {
        lemma_suffix_prod_ge(dims, r + 1, s);
        let a = dims[r] as int;
        let b = suffix_prod(dims, r + 1) as int;
        assert(suffix_prod(dims, r) == a * b);
        assert(a * b >= b) by (nonlinear_arith)
            requires
                a >= 1,
                b >= 0,
        ;
    }
}

/// Proof that the prefix and suffix products of a shape split its product.
pub proof fn lemma_prefix_suffix(dims: Seq<usize>, len: int)
    requires
        0 <= len <= dims.len(),
    ensures
        prefix_prod(dims, len) * suffix_prod(dims, len) == suffix_prod(dims, 0),
    decreases len,
{
    if len > 0 {
        lemma_prefix_suffix(dims, len - 1);
        let p = prefix_prod(dims, len - 1) as int;
        let d = dims[len - 1] as int;
        let s = suffix_prod(dims, len) as int;
        let pl = prefix_prod(dims, len) as int;
        let s0 = suffix_prod(dims, 0) as int;
        assert(suffix_prod(dims, len - 1) == d * s);
        assert(pl == p * d);
        assert(p * suffix_prod(dims, len - 1) == s0);
        assert(pl * s == s0) by (nonlinear_arith)
            requires
                pl == p * d,
                p * (d * s) == s0,
        ;
    } else {
        assert(prefix_prod(dims, 0) == 1);
        let s0 = suffix_prod(dims, 0) as int;
        assert(1 * s0 == s0);
    }
}

/// Proof that the product of a shape, taken from either end, is the same.
pub proof fn lemma_prefix_prod_is_product(dims: Seq<usize>)
    ensures
        prefix_prod(dims, dims.len() as int) == suffix_prod(dims, 0),
{
    lemma_prefix_suffix(dims, dims.len() as int);
    let p = prefix_prod(dims, dims.len() as int) as int;
    assert(suffix_prod(dims, dims.len() as int) == 1);
    assert(p * 1 == p);
}

/// Proof that prefix products grow with the prefix when no axis is empty.
pub proof fn lemma_prefix_prod_mono(dims: Seq<usize>, a: int, b: int)
    requires
        0 <= a <= b <= dims.len(),
        forall|x: int| 0 <= x < dims.len() ==> #[trigger] dims[x] > 0,
    ensures
        prefix_prod(dims, a) <= prefix_prod(dims, b),
        prefix_prod(dims, b) > 0,
    decreases b,
{
    if b > 0 {
        if a < b {
            lemma_prefix_prod_mono(dims, a, b - 1);
        } else {
            lemma_prefix_prod_mono(dims, b - 1, b - 1);
        }
        let p = prefix_prod(dims, b - 1) as int;
        let d = dims[b - 1] as int;
        assert(p <= p * d && p * d > 0) by (nonlinear_arith)
            requires
                p > 0,
                d > 0,
        ;
    }
}

/// Proof that a leading axis of length one leaves the trailing products of a shape unchanged.
pub proof fn lemma_suffix_prod_unit_axis(dims: Seq<usize>, i: int)
    requires
        0 <= i <= dims.len(),
    ensures
        suffix_prod(seq![1usize] + dims, i + 1) == suffix_prod(dims, i),
    decreases dims.len() - i,
{
    let e = seq![1usize] + dims;
    if i < dims.len() {
        lemma_suffix_prod_unit_axis(dims, i + 1);
        assert(e[i + 1] == dims[i]);
    }
}

/// Proof that a leading axis of length one leaves the product of a shape unchanged.
pub proof fn lemma_unit_axis_product(dims: Seq<usize>)
    ensures
        suffix_prod(seq![1usize] + dims, 0) == suffix_prod(dims, 0),
{
    let e = seq![1usize] + dims;
    lemma_suffix_prod_unit_axis(dims, 0);
    assert(e[0] == 1);
    assert(suffix_prod(e, 0) == 1 * suffix_prod(e, 1));
}

} // verus!
