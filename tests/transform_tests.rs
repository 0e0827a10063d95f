use fore::{
    apply_phi_transform, binary_haar_transform, chunk_size_for, exp_phi, exp_phi_inverse,
    get_chunk_size, mul_gfp2, sub_mod, to_gfp2, GFp2, BASE_CHUNK_SIZE, P,
};
use rayon::iter::{IntoParallelIterator, ParallelIterator};

#[test]
fn test_parallel_haar_transform() {
    let mut data: Vec<GFp2> = (0..1000)
        .into_par_iter()
        .map(|i| to_gfp2(i as u32))
        .collect();

    binary_haar_transform(&mut data);

    for i in (1..data.len()).step_by(2) {
        assert_eq!(data[i].a, sub_mod(0, to_gfp2(i as u32).a));
    }
}

#[test]
fn chunk_size_policy() {
    assert_eq!(chunk_size_for(0), 4096);
    assert_eq!(chunk_size_for(1), 262144);
    assert_eq!(chunk_size_for(64), 262144);
    assert_eq!(chunk_size_for(usize::MAX), 262144);
    assert_eq!(get_chunk_size(), 262144);
    assert_eq!(get_chunk_size(), get_chunk_size());
    assert_eq!(BASE_CHUNK_SIZE, 1024);
}

#[test]
fn haar_negates_odd_indices_only() {
    let mut data = vec![GFp2 { a: 5, b: 7 }, GFp2 { a: 5, b: 7 }, GFp2 { a: 0, b: 3 }, GFp2 { a: 0, b: 0 }];
    binary_haar_transform(&mut data);
    assert_eq!(
        data,
        vec![GFp2 { a: 5, b: 7 }, GFp2 { a: P - 5, b: P - 7 }, GFp2 { a: 0, b: 3 }, GFp2 { a: 0, b: 0 }]
    );
}

#[test]
fn haar_twice_restores_across_chunks() {
    let n = 600_000;
    let original: Vec<GFp2> = (0..n)
        .map(|i| GFp2 { a: (i * 7919 % P as usize) as u32, b: (i * 31 % P as usize) as u32 })
        .collect();
    let mut data = original.clone();
    binary_haar_transform(&mut data);
    // global parity holds past the first chunk boundary
    assert_eq!(data[262145].a, sub_mod(0, original[262145].a));
    assert_eq!(data[262144], original[262144]);
    binary_haar_transform(&mut data);
    assert_eq!(data, original);
}

#[test]
fn phi_pass_multiplies_each_element() {
    let phi = GFp2 { a: 0, b: 1 };
    let mut data = vec![GFp2 { a: 1, b: 0 }, GFp2 { a: 0, b: 1 }, GFp2 { a: 2, b: 3 }];
    assert_eq!(apply_phi_transform(&mut data, &phi), Some(()));
    assert_eq!(data, vec![GFp2 { a: 0, b: 1 }, GFp2 { a: 1, b: 1 }, GFp2 { a: 3, b: 5 }]);
}

#[test]
fn phi_pass_on_empty_reports_nothing_done() {
    let mut data: Vec<GFp2> = Vec::new();
    assert_eq!(apply_phi_transform(&mut data, &GFp2 { a: 0, b: 1 }), None);
    assert!(data.is_empty());
}

#[test]
fn phi_pass_round_trip() {
    let phi = GFp2 { a: 0, b: 1 };
    let key = 123_456_789u32;
    let f = exp_phi(phi, key);
    let g = exp_phi_inverse(phi, key);
    let original: Vec<GFp2> = (0..5000u32).map(|i| GFp2 { a: i * 3, b: (i * 11) % 97 }).collect();
    let mut data = original.clone();
    apply_phi_transform(&mut data, &f);
    assert_ne!(data, original);
    assert_eq!(data[3], mul_gfp2(&original[3], &f));
    apply_phi_transform(&mut data, &g);
    assert_eq!(data, original);
}
