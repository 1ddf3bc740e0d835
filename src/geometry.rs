use crate::shape::{suffix_prod, unravel_at};
use vstd::prelude::*;

verus! {

/// Layout of a feature tensor: where the batch axis, the channel axis and the spatial
/// axes stand.
#[derive(Clone, Copy, Debug, PartialEq, Eq, Structural)]
pub enum DataFormat {
    NCHW,
    NHWC,
    CHW,
    HWC,
}

impl DataFormat {
    pub open spec fn has_n_spec(self) -> bool {
        self == DataFormat::NCHW || self == DataFormat::NHWC
    }

    pub open spec fn c_is_last_spec(self) -> bool {
        self == DataFormat::NHWC || self == DataFormat::HWC
    }

    pub open spec fn with_n_spec(self) -> DataFormat {
        match self {
            DataFormat::HWC => DataFormat::NHWC,
            DataFormat::CHW => DataFormat::NCHW,
            any => any,
        }
    }

    pub fn has_n(&self) -> (r: bool)
        ensures
            r == self.has_n_spec(),
    {
        matches!(self, DataFormat::NCHW | DataFormat::NHWC)
    }

    pub fn c_is_last(&self) -> (r: bool)
        ensures
            r == self.c_is_last_spec(),
    {
        matches!(self, DataFormat::NHWC | DataFormat::HWC)
    }

    /// The same layout with a batch axis.
    pub fn with_n(&self) -> (r: DataFormat)
        ensures
            r == self.with_n_spec(),
    {
        match self {
            DataFormat::HWC => DataFormat::NHWC,
            DataFormat::CHW => DataFormat::NCHW,
            DataFormat::NHWC => DataFormat::NHWC,
            DataFormat::NCHW => DataFormat::NCHW,
        }
    }
}

/// Padding along one spatial axis.
#[derive(Clone, Copy, Debug, PartialEq, Eq, Structural)]
pub enum AxisPadding {
    Valid,
    SameUpper,
    SameLower,
    Explicit { before: usize, after: usize },
}

/// Padding rule of a sliding window.
#[derive(Clone, Debug)]
pub enum PaddingSpec {
    Valid,
    SameUpper,
    SameLower,
    Explicit(Vec<usize>, Vec<usize>),
}

impl PaddingSpec {
    pub open spec fn axis_spec(&self, r: int) -> AxisPadding {
        match self {
            PaddingSpec::Valid => AxisPadding::Valid,
            PaddingSpec::SameUpper => AxisPadding::SameUpper,
            PaddingSpec::SameLower => AxisPadding::SameLower,
            PaddingSpec::Explicit(b, a) => AxisPadding::Explicit { before: b@[r], after: a@[r] },
        }
    }

    pub open spec fn wf_for(&self, rank: nat) -> bool {
        match self {
            PaddingSpec::Explicit(b, a) => b@.len() == rank && a@.len() == rank,
            _ => true,
        }
    }

    pub fn axis(&self, r: usize) -> (p: AxisPadding)
        requires
            self matches PaddingSpec::Explicit(b, a) ==> r < b@.len() && r < a@.len(),
        ensures
            p == self.axis_spec(r as int),
    {
        match self {
            PaddingSpec::Valid => AxisPadding::Valid,
            PaddingSpec::SameUpper => AxisPadding::SameUpper,
            PaddingSpec::SameLower => AxisPadding::SameLower,
            PaddingSpec::Explicit(b, a) => AxisPadding::Explicit { before: b[r], after: a[r] },
        }
    }
}

/// Extent covered by a kernel of `ks` taps `dl` apart.
pub open spec fn dilated(ks: int, dl: int) -> int {
    (ks - 1) * dl + 1
}

/// Number of window positions along one axis of length `d`.
pub open spec fn axis_output(d: int, ks: int, s: int, dl: int, pad: AxisPadding) -> int {
    let dk = dilated(ks, dl);
    match pad {
        AxisPadding::Valid => if d >= dk { (d - dk) / s + 1 } else { 0 },
        AxisPadding::SameUpper | AxisPadding::SameLower => (d + s - 1) / s,
        AxisPadding::Explicit { before, after } => {
            let t = d + before + after;
            if t >= dk { (t - dk) / s + 1 } else { 0 }
        },
    }
}

/// Padding before the first input value along one axis.
pub open spec fn axis_pad_before(d: int, ks: int, s: int, dl: int, pad: AxisPadding) -> int {
    let dk = dilated(ks, dl);
    let out = axis_output(d, ks, s, dl, pad);
    let total = if out > 0 && (out - 1) * s + dk > d { (out - 1) * s + dk - d } else { 0 };
    match pad {
        AxisPadding::Valid => 0,
        AxisPadding::SameUpper => total / 2,
        AxisPadding::SameLower => total - total / 2,
        AxisPadding::Explicit { before, after } => before as int,
    }
}

/// The values of one axis are usable: positive kernel, stride and dilation, and every
/// quantity the geometry computes fits in `isize`.
pub open spec fn axis_ok(d: int, ks: int, s: int, dl: int, pad: AxisPadding) -> bool {
    let (b, a) = match pad {
        AxisPadding::Explicit { before, after } => (before as int, after as int),
        _ => (0int, 0int),
    };
    &&& ks >= 1
    &&& s >= 1
    &&& dl >= 1
    &&& 2 * (d + ks * dl + s + b + a) <= isize::MAX
}

/// Output length and padding before, along one axis.
pub fn axis_geometry(d: usize, ks: usize, s: usize, dl: usize, pad: AxisPadding) -> (r: Option<(usize, usize)>)
    ensures
        r is Some <==> axis_ok(d as int, ks as int, s as int, dl as int, pad),
        r matches Some((out, before)) ==> out == axis_output(d as int, ks as int, s as int, dl as int, pad)
            && before == axis_pad_before(d as int, ks as int, s as int, dl as int, pad),
{
    if ks == 0 || s == 0 || dl == 0 {
        return None;
    }
    let (b, a): (usize, usize) = match pad {
        AxisPadding::Explicit { before, after } => (before, after),
        _ => (0, 0),
    };
    let kd = match ks.checked_mul(dl) {
        Some(x) => x,
        None => {
            return None;
        },
    };
    let bound: usize = (isize::MAX as usize) / 2;
    if d > bound || kd > bound - d || s > bound - d - kd || b > bound - d - kd - s || a > bound - d - kd
        - s - b {
        return None;
    }
    proof {
        assert(dilated(ks as int, dl as int) <= ks * dl) by (nonlinear_arith)
            requires
                dl >= 1,
        ;
        assert(dilated(ks as int, dl as int) >= 1) by (nonlinear_arith)
            requires
                dl >= 1,
                ks >= 1,
        ;
    }
    let dk = (ks - 1) * dl + 1;
    let out: usize = match pad {
        AxisPadding::Valid => if d >= dk {
            (d - dk) / s + 1
        } else {
            0
        },
        AxisPadding::SameUpper | AxisPadding::SameLower => (d + s - 1) / s,
        AxisPadding::Explicit { before, after } => {
            let t = d + b + a;
            if t >= dk {
                (t - dk) / s + 1
            } else {
                0
            }
        },
    };
    let total: usize = if out > 0 {
        proof {
            if pad is SameUpper || pad is SameLower {
                vstd::arithmetic::div_mod::lemma_fundamental_div_mod((d + s - 1) as int, s as int);
                vstd::arithmetic::div_mod::lemma_mod_pos_bound((d + s - 1) as int, s as int);
                assert((out - 1) * s <= d) by (nonlinear_arith)
                    requires
                        d + s - 1 == s * out + (d + s - 1) % (s as int),
                        (d + s - 1) % (s as int) >= 0,
                        s >= 1,
                ;
            } else {
                let t = if pad is Valid { d as int } else { d + b + a };
                vstd::arithmetic::div_mod::lemma_fundamental_div_mod(t - dk, s as int);
                vstd::arithmetic::div_mod::lemma_mod_pos_bound(t - dk, s as int);
                assert((out - 1) * s <= t - dk) by (nonlinear_arith)
                    requires
                        t - dk == s * (out - 1) + (t - dk) % (s as int),
                        (t - dk) % (s as int) >= 0,
                        s >= 1,
                ;
            }
        }
        let last = (out - 1) * s + dk;
        if last > d {
            last - d
        } else {
            0
        }
    } else {
        0
    };
    let before: usize = match pad {
        AxisPadding::Valid => 0,
        AxisPadding::SameUpper => total / 2,
        AxisPadding::SameLower => total - total / 2,
        AxisPadding::Explicit { before, after } => before,
    };
    Some((out, before))
}

/// Description of a sliding-window operation over the spatial axes of a feature tensor.
#[derive(Clone, Debug)]
pub struct PoolSpec {
    pub data_format: DataFormat,
    pub kernel_shape: Vec<usize>,
    pub padding: PaddingSpec,
    pub strides: Vec<usize>,
    pub dilations: Vec<usize>,
}

impl PoolSpec {
    pub open spec fn rank(&self) -> nat {
        self.kernel_shape@.len()
    }

    /// The per-axis vectors all have one entry per spatial axis.
    pub open spec fn wf_rank(&self) -> bool {
        &&& self.strides@.len() == self.rank()
        &&& self.dilations@.len() == self.rank()
        &&& self.padding.wf_for(self.rank())
    }

    pub open spec fn axis_ok_for(&self, input: Seq<usize>, r: int) -> bool {
        axis_ok(
            input[r] as int,
            self.kernel_shape@[r] as int,
            self.strides@[r] as int,
            self.dilations@[r] as int,
            self.padding.axis_spec(r),
        )
    }

    pub open spec fn output_dim(&self, input: Seq<usize>, r: int) -> int {
        axis_output(
            input[r] as int,
            self.kernel_shape@[r] as int,
            self.strides@[r] as int,
            self.dilations@[r] as int,
            self.padding.axis_spec(r),
        )
    }

    pub open spec fn pad_before(&self, input: Seq<usize>, r: int) -> int {
        axis_pad_before(
            input[r] as int,
            self.kernel_shape@[r] as int,
            self.strides@[r] as int,
            self.dilations@[r] as int,
            self.padding.axis_spec(r),
        )
    }

    /// Output spatial shape over the spatial input shape `input`.
    pub open spec fn output_spatial(&self, input: Seq<usize>) -> Seq<usize> {
        Seq::new(self.rank(), |r: int| self.output_dim(input, r) as usize)
    }
}

} // verus!
