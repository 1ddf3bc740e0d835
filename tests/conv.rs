use tract_conv::geometry::{axis_geometry, AxisPadding, DataFormat, PaddingSpec, PoolSpec};
use tract_conv::im2col::{Im2Col, Im2ColError};
use tract_conv::patcher::Patcher;
use tract_conv::tensor::{DataShape, Tensor};
use tract_conv::mmm::{Kernel, MatMatMulImpl};
use tract_conv::packer::Packer;

fn kernel4() -> Kernel {
    Kernel {
        mr: 4,
        nr: 4,
        alignment_bytes_packed_a: 16,
        alignment_bytes_packed_b: 16,
        end_padding_packed_a: 0,
        end_padding_packed_b: 0,
    }
}

fn spec(fmt: DataFormat, kernel: Vec<usize>, padding: PaddingSpec) -> PoolSpec {
    let rank = kernel.len();
    PoolSpec { data_format: fmt, kernel_shape: kernel, padding, strides: vec![1; rank], dilations: vec![1; rank] }
}

fn op(pool: PoolSpec, group: usize, k: usize, shape: &Vec<usize>) -> Im2Col {
    let mmm = MatMatMulImpl::new(kernel4(), 1, k, 1);
    Im2Col::new(pool, group, k, shape, &mmm).unwrap()
}

#[test]
fn valid_1x1_nchw() {
    let shape = vec![1, 2, 1, 1];
    let im = op(spec(DataFormat::NCHW, vec![1, 1], PaddingSpec::Valid), 1, 2, &shape);
    let input = Tensor::new(shape, vec![1.0f32, 2.0]).unwrap();
    let out = im.eval(&input, 0.0).unwrap();
    assert_eq!(out.shape, vec![1, 8]);
    assert_eq!(im.b_pack.len(1), 8);
    assert_eq!(out.data, vec![1.0, 1.0, 1.0, 1.0, 2.0, 2.0, 2.0, 2.0]);
}

#[test]
fn padded_same_upper_nhwc() {
    let shape = vec![1, 2, 2, 1];
    let im = op(spec(DataFormat::NHWC, vec![2, 2], PaddingSpec::SameUpper), 1, 4, &shape);
    let input = Tensor::new(shape.clone(), vec![1.0f32, 2.0, 3.0, 4.0]).unwrap();
    let out = im.eval(&input, 0.0).unwrap();
    assert_eq!(out.shape, vec![1, 16]);
    let dense = vec![
        1.0f32, 2.0, 3.0, 4.0, 2.0, 0.0, 4.0, 0.0, 3.0, 4.0, 0.0, 0.0, 4.0, 0.0, 0.0, 0.0,
    ];
    assert_eq!(out.data, dense);
    let ds = DataShape { fmt: DataFormat::NHWC, shape };
    let geo = im.resolve(&ds).unwrap();
    assert_eq!(geo.patcher, Patcher::Padded2d);
    assert!(geo.patch.padded);
    assert_eq!(geo.k, 4);
    assert_eq!(geo.n, 4);
    let generic = Patcher::generic(&geo, &ds, &input.data, 0, 0, 0.0, 0.0);
    let padded = Patcher::padded_2d(&geo, &ds, &input.data, 0, 0, 0.0, 0.0);
    assert_eq!(generic, dense);
    assert_eq!(padded, dense);
}

#[test]
fn same_lower_pads_before() {
    let shape = vec![1, 1, 2, 2];
    let im = op(spec(DataFormat::NCHW, vec![2, 2], PaddingSpec::SameLower), 1, 4, &shape);
    let input = Tensor::new(shape, vec![1, 2, 3, 4]).unwrap();
    let out = im.eval(&input, -1).unwrap();
    assert_eq!(out.data, vec![-1, -1, -1, 1, -1, -1, 1, 2, -1, 1, -1, 3, 1, 2, 3, 4]);
}

#[test]
fn grouped_equals_independent_groups() {
    let shape = vec![1, 4, 3, 3];
    let data: Vec<i32> = (0..36).collect();
    let im = op(spec(DataFormat::NCHW, vec![3, 3], PaddingSpec::Valid), 2, 18, &shape);
    let out = im.eval(&Tensor::new(shape, data.clone()).unwrap(), 0).unwrap();
    assert_eq!(out.shape, vec![1, 2, 72]);
    let half_shape = vec![1, 2, 3, 3];
    let single = op(spec(DataFormat::NCHW, vec![3, 3], PaddingSpec::Valid), 1, 18, &half_shape);
    let first = single.eval(&Tensor::new(half_shape.clone(), data[0..18].to_vec()).unwrap(), 0).unwrap();
    let second = single.eval(&Tensor::new(half_shape, data[18..36].to_vec()).unwrap(), 0).unwrap();
    assert_eq!(first.shape, vec![1, 72]);
    let mut both = first.data.clone();
    both.extend_from_slice(&second.data);
    assert_eq!(out.data, both);
    assert_eq!(out.data[0], 0);
    assert_eq!(out.data[4], 1);
    assert_eq!(out.data[72], 18);
}

#[test]
fn zero_output_dimension_short_circuits() {
    let shape = vec![1, 1, 1, 1];
    let im = op(spec(DataFormat::NCHW, vec![2, 2], PaddingSpec::Valid), 1, 4, &shape);
    let out = im.eval(&Tensor::new(shape.clone(), vec![5.0f32]).unwrap(), 0.0).unwrap();
    assert_eq!(out.shape, vec![1, 0]);
    assert!(out.data.is_empty());
    assert_eq!(im.output_shape(&shape).unwrap(), vec![1, 0]);
}

#[test]
fn end_padding_rows_do_not_depend_on_pad() {
    let shape = vec![1, 2, 3, 3];
    let data: Vec<i32> = (0..18).collect();
    let pool = spec(DataFormat::NCHW, vec![2, 2], PaddingSpec::Valid);
    let mut kernel = kernel4();
    kernel.end_padding_packed_b = 2;
    let mmm = MatMatMulImpl::new(kernel, 1, 8, 1);
    let im = Im2Col::new(pool, 1, 8, &shape, &mmm).unwrap();
    let ds = DataShape { fmt: DataFormat::NCHW, shape: shape.clone() };
    let geo = im.resolve(&ds).unwrap();
    assert_eq!(geo.patcher, Patcher::Valid2d);
    let valid = Patcher::valid_2d(&geo, &ds, &data, 0, 0, -1);
    assert_eq!(valid.len(), 40);
    assert_eq!(Patcher::generic(&geo, &ds, &data, 0, 0, 0, -1), valid);
    assert_eq!(Patcher::generic(&geo, &ds, &data, 0, 0, 99, -1), valid);
    assert_eq!(Patcher::padded_2d(&geo, &ds, &data, 0, 0, 7, -1), valid);
    assert_eq!(valid[32..40].to_vec(), vec![13, 14, 16, 17, 13, 14, 16, 17]);
    let input = Tensor::new(shape, data).unwrap();
    assert_eq!(im.eval(&input, 0).unwrap().data, im.eval(&input, 99).unwrap().data);
}

#[test]
fn pack_without_rows_holds_fill() {
    let p = Packer::new(0, 2, 8, 1);
    assert_eq!(p.pack(&Vec::<i32>::new(), 3, true, 9), vec![9, 9, 9, 9]);
}

#[test]
fn valid_strategies_match_generic() {
    let shape = vec![1, 2, 4, 5];
    let data: Vec<i64> = (0..40).collect();
    let pool = PoolSpec {
        data_format: DataFormat::NCHW,
        kernel_shape: vec![2, 3],
        padding: PaddingSpec::Valid,
        strides: vec![2, 1],
        dilations: vec![1, 1],
    };
    let im = op(pool, 1, 12, &shape);
    let ds = DataShape { fmt: DataFormat::NCHW, shape };
    let geo = im.resolve(&ds).unwrap();
    assert_eq!(geo.patcher, Patcher::Valid2d);
    assert!(!geo.patch.padded);
    assert_eq!(geo.patch.output_shape, vec![2, 3]);
    let generic = Patcher::generic(&geo, &ds, &data, 0, 0, -5, 0);
    let valid = Patcher::valid_2d(&geo, &ds, &data, 0, 0, 0);
    let padded = Patcher::padded_2d(&geo, &ds, &data, 0, 0, 99, 0);
    assert_eq!(valid, generic);
    assert_eq!(padded, valid);
    assert_eq!(valid[0..8].to_vec(), vec![0, 1, 2, 10, 1, 2, 3, 11]);
}

#[test]
fn valid_1d_matches_generic() {
    let shape = vec![1, 5, 2];
    let data: Vec<i32> = (0..10).collect();
    let pool = PoolSpec {
        data_format: DataFormat::NHWC,
        kernel_shape: vec![2],
        padding: PaddingSpec::Valid,
        strides: vec![1],
        dilations: vec![2],
    };
    let im = op(pool, 1, 4, &shape);
    let ds = DataShape { fmt: DataFormat::NHWC, shape };
    let geo = im.resolve(&ds).unwrap();
    assert_eq!(geo.patcher, Patcher::Valid1d);
    assert_eq!(geo.n, 3);
    let valid = Patcher::valid_1d(&geo, &ds, &data, 0, 0, 0);
    let generic = Patcher::generic(&geo, &ds, &data, 0, 0, 42, 0);
    assert_eq!(valid, generic);
    assert_eq!(valid, vec![0, 2, 4, 4, 4, 6, 8, 8, 1, 3, 5, 5, 5, 7, 9, 9]);
}

#[test]
fn generic_three_dimensional() {
    let shape = vec![1, 2, 2, 2];
    let data: Vec<i32> = (1..=8).collect();
    let im = op(spec(DataFormat::CHW, vec![2, 2, 2], PaddingSpec::Valid), 1, 8, &shape);
    let out = im.eval(&Tensor::new(shape, data).unwrap(), 0).unwrap();
    assert_eq!(out.shape, vec![32]);
    assert_eq!(out.data[0..4].to_vec(), vec![1, 1, 1, 1]);
    assert_eq!(out.data[28..32].to_vec(), vec![8, 8, 8, 8]);
}

#[test]
fn group_must_divide_channels() {
    let shape = vec![1, 3, 2, 2];
    let mmm = MatMatMulImpl::new(kernel4(), 1, 2, 1);
    let r = Im2Col::new(spec(DataFormat::NCHW, vec![1, 1], PaddingSpec::Valid), 2, 1, &shape, &mmm);
    assert_eq!(r.err(), Some(Im2ColError::ShapeError));
}

#[test]
fn rank_mismatch_is_shape_error() {
    let shape = vec![1, 1, 4];
    let mmm = MatMatMulImpl::new(kernel4(), 1, 4, 1);
    let r = Im2Col::new(spec(DataFormat::NCHW, vec![2, 2], PaddingSpec::Valid), 1, 4, &shape, &mmm);
    assert!(r.is_err());
}

#[test]
fn tensor_length_checked() {
    assert!(Tensor::new(vec![2, 3], vec![0u8; 5]).is_none());
    assert!(Tensor::new(vec![2, 3], vec![0u8; 6]).is_some());
}

#[test]
fn packer_len_formula() {
    let p = Packer::new(3, 4, 16, 1);
    assert_eq!(p.len(0), 0);
    assert_eq!(p.len(1), 16);
    assert_eq!(p.len(4), 16);
    assert_eq!(p.len(5), 32);
    assert_eq!(p.checked_len(9), Some(48));
}

#[test]
fn pack_repeats_last_column_and_round_trips() {
    let p = Packer::new(2, 3, 8, 1);
    let m = vec![1, 2, 3, 4, 5, 6, 7, 8];
    let packed = p.pack(&m, 4, true, 0);
    assert_eq!(packed, vec![1, 2, 3, 5, 6, 7, 5, 6, 7, 4, 4, 4, 8, 8, 8, 8, 8, 8]);
    let mut back = Vec::new();
    for row in 0..2 {
        for col in 0..4 {
            back.push(packed[(col / 3) * 9 + row * 3 + col % 3]);
        }
    }
    assert_eq!(back, m);
}

#[test]
fn pack_mn_outer_transposes() {
    let p = Packer::new(2, 2, 8, 0);
    let m = vec![1, 2, 3, 4, 5, 6];
    assert_eq!(p.pack(&m, 3, false, 0), vec![1, 3, 2, 4, 5, 5, 6, 6]);
}

#[test]
fn axis_geometry_values() {
    assert_eq!(axis_geometry(5, 3, 1, 1, AxisPadding::Valid), Some((3, 0)));
    assert_eq!(axis_geometry(5, 3, 2, 1, AxisPadding::SameUpper), Some((3, 1)));
    assert_eq!(axis_geometry(4, 3, 1, 1, AxisPadding::SameLower), Some((4, 1)));
    assert_eq!(axis_geometry(4, 2, 1, 1, AxisPadding::SameUpper), Some((4, 0)));
    assert_eq!(axis_geometry(4, 2, 1, 1, AxisPadding::SameLower), Some((4, 1)));
    assert_eq!(axis_geometry(3, 2, 1, 2, AxisPadding::Explicit { before: 1, after: 1 }), Some((3, 1)));
    assert_eq!(axis_geometry(3, 0, 1, 1, AxisPadding::Valid), None);
}
