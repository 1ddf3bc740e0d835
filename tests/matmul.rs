use tract_conv::mmm::{DatumType, Kernel, MatMatMulImpl, MatrixStoreSpec, MmmError, ScratchSpace};

fn kernel(mr: usize, nr: usize) -> Kernel {
    Kernel {
        mr,
        nr,
        alignment_bytes_packed_a: 16,
        alignment_bytes_packed_b: 16,
        end_padding_packed_a: 0,
        end_padding_packed_b: 0,
    }
}

fn run(mr: usize, nr: usize, m: usize, k: usize, n: usize, a: &Vec<i64>, b: &Vec<i64>) -> Vec<i64> {
    let mmm = MatMatMulImpl::new(kernel(mr, nr), m, k, n);
    let pa = mmm.a_pack().pack(a, m, false, 0);
    let pb = mmm.b_pack().pack(b, n, true, 0);
    let mut c = vec![0i64; m * n];
    mmm.run(&pa, &pb, &mut c).unwrap();
    c
}

fn reference(m: usize, k: usize, n: usize, a: &Vec<i64>, b: &Vec<i64>) -> Vec<i64> {
    let mut c = vec![0i64; m * n];
    for i in 0..m {
        for j in 0..n {
            for t in 0..k {
                c[i * n + j] += a[i * k + t] * b[t * n + j];
            }
        }
    }
    c
}

#[test]
fn edge_tiles_of_ones() {
    let a = vec![1i64; 15];
    let b = vec![1i64; 15];
    assert_eq!(run(4, 4, 5, 3, 5, &a, &b), vec![3i64; 25]);
}

#[test]
fn product_matches_reference() {
    let (m, k, n) = (7, 5, 6);
    let a: Vec<i64> = (0..(m * k) as i64).map(|x| x * 3 - 11).collect();
    let b: Vec<i64> = (0..(k * n) as i64).map(|x| 7 - x * 2).collect();
    assert_eq!(run(4, 4, m, k, n, &a, &b), reference(m, k, n, &a, &b));
    assert_eq!(run(3, 2, m, k, n, &a, &b), reference(m, k, n, &a, &b));
    assert_eq!(run(1, 1, m, k, n, &a, &b), reference(m, k, n, &a, &b));
}

#[test]
fn edge_case_matches_zero_padded_product() {
    let (m, k, n) = (5, 3, 6);
    let a: Vec<i64> = (0..(m * k) as i64).map(|x| x + 1).collect();
    let b: Vec<i64> = (0..(k * n) as i64).map(|x| 2 * x - 5).collect();
    let (mp, np) = (8, 8);
    let mut ap = vec![0i64; mp * k];
    ap[..m * k].copy_from_slice(&a);
    let mut bp = vec![0i64; k * np];
    for t in 0..k {
        for j in 0..n {
            bp[t * np + j] = b[t * n + j];
        }
    }
    let small = run(4, 4, m, k, n, &a, &b);
    let big = run(4, 4, mp, k, np, &ap, &bp);
    for i in 0..m {
        for j in 0..n {
            assert_eq!(small[i * n + j], big[i * np + j]);
        }
    }
}

#[test]
fn matvec_with_single_column_kernel() {
    let a: Vec<i64> = vec![1, 2, 3, 4, 5, 6];
    let b: Vec<i64> = vec![1, 10];
    assert_eq!(run(2, 1, 3, 2, 1, &a, &b), vec![21, 43, 65]);
}

#[test]
fn wrapping_arithmetic_on_overflow() {
    let a = vec![i64::MAX, 2];
    let b = vec![2, 1];
    assert_eq!(run(1, 1, 1, 2, 1, &a, &b), vec![i64::MAX.wrapping_mul(2).wrapping_add(2)]);
}

#[test]
fn wrong_scratch_space_is_rejected() {
    let mmm = MatMatMulImpl::new(kernel(2, 2), 2, 1, 2);
    let mut scratch = ScratchSpace { internal_type: DatumType::F32, tile: Vec::new() };
    assert!(!mmm.can_use_scratch_space(&scratch));
    let mut c = vec![7i64; 4];
    let r = mmm.run_with_scratch_space(&mut scratch, &vec![1, 1], &vec![1, 1], &mut c);
    assert_eq!(r, Err(MmmError::WrongScratchSpaceType));
    assert_eq!(c, vec![7; 4]);
    let mut good = mmm.allocate_scratch_space();
    assert!(mmm.run_with_scratch_space(&mut good, &vec![1, 2], &vec![3, 4], &mut c).is_ok());
    assert_eq!(c, vec![3, 4, 6, 8]);
}

#[test]
fn offsets_store_extends_to_panels() {
    let mmm = MatMatMulImpl::new(kernel(4, 4), 4, 2, 5);
    match mmm.b_from_data_and_offsets(DatumType::F32, &vec![0, 3], &vec![1, 2, 5]) {
        MatrixStoreSpec::OffsetsAndPtrs { row_byte_offsets, col_byte_offsets, nr } => {
            assert_eq!(nr, 4);
            assert_eq!(col_byte_offsets, vec![4, 8, 20, 20]);
            assert_eq!(row_byte_offsets, vec![0, 12, 12, 12, 12, 12]);
        },
        other => panic!("unexpected store {:?}", other),
    }
}

#[test]
fn store_descriptors() {
    let mmm = MatMatMulImpl::new(kernel(4, 2), 4, 3, 5);
    match mmm.a_packed(DatumType::I16) {
        MatrixStoreSpec::Packed { panel_bytes } => assert_eq!(panel_bytes, 24),
        other => panic!("unexpected store {:?}", other),
    }
    match mmm.b_packed(DatumType::F64) {
        MatrixStoreSpec::Packed { panel_bytes } => assert_eq!(panel_bytes, 48),
        other => panic!("unexpected store {:?}", other),
    }
    match mmm.c_from_data_and_strides(5, -1) {
        MatrixStoreSpec::Strides { row_byte_stride, col_byte_stride, row_item_stride, col_item_stride, mr, nr } => {
            assert_eq!((row_byte_stride, col_byte_stride), (40, -8));
            assert_eq!((row_item_stride, col_item_stride), (5, -1));
            assert_eq!((mr, nr), (4, 2));
        },
        other => panic!("unexpected store {:?}", other),
    }
    match mmm.c_view_with_axis(1, 0) {
        MatrixStoreSpec::View { axes, mr, nr } => assert_eq!((axes, mr, nr), (Some((1, 0)), 4, 2)),
        other => panic!("unexpected store {:?}", other),
    }
    assert_eq!(mmm.internal_type(), DatumType::I64);
    let mut padded_kernel = kernel(4, 2);
    padded_kernel.end_padding_packed_a = 1;
    let padded = MatMatMulImpl::new(padded_kernel, 4, 3, 5);
    match padded.a_packed(DatumType::I16) {
        MatrixStoreSpec::Packed { panel_bytes } => assert_eq!(panel_bytes, 32),
        other => panic!("unexpected store {:?}", other),
    }
    assert_eq!(mmm.a_pack().panel_width, 4);
    assert_eq!(mmm.b_pack().panel_width, 2);
}

#[test]
fn end_padded_panels_give_the_same_product() {
    let (m, k, n) = (5, 3, 7);
    let a: Vec<i64> = (0..(m * k) as i64).map(|x| x - 4).collect();
    let b: Vec<i64> = (0..(k * n) as i64).map(|x| 3 * x + 1).collect();
    let mut kern = kernel(4, 4);
    kern.end_padding_packed_a = 1;
    kern.end_padding_packed_b = 2;
    let mmm = MatMatMulImpl::new(kern, m, k, n);
    let pa = mmm.a_pack().pack(&a, m, false, 0);
    let pb = mmm.b_pack().pack(&b, n, true, 0);
    assert_eq!(pa.len(), 2 * 4 * 4);
    assert_eq!(pb.len(), 2 * 5 * 4);
    let mut c = vec![0i64; m * n];
    mmm.run(&pa, &pb, &mut c).unwrap();
    assert_eq!(c, reference(m, k, n, &a, &b));
}
