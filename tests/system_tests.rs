use fore::{exp_phi, mul_gfp2, ForeSystem, GFp2, P};

#[test]
fn end_to_end_round_trip() {
    let system = ForeSystem::new(0xDEADBEEF);
    let freq = system.process_data(b"Test message");
    assert_eq!(freq.len(), 12);
    assert_eq!(system.reconstruct(&freq), "Test message");
}

#[test]
fn process_data_is_sign_pass_then_key_multiply() {
    let key = 42u32;
    let system = ForeSystem::new(key);
    let f = exp_phi(GFp2 { a: 0, b: 1 }, key);
    let freq = system.process_data(&[3, 4]);
    assert_eq!(freq[0], mul_gfp2(&GFp2 { a: 3, b: 0 }, &f));
    assert_eq!(freq[1], mul_gfp2(&GFp2 { a: P - 4, b: 0 }, &f));
    let zero_key = ForeSystem::new(0);
    assert_eq!(zero_key.process_data(&[9, 9]), vec![GFp2 { a: 9, b: 0 }, GFp2 { a: P - 9, b: 0 }]);
}

#[test]
fn edit_keeps_pair_antisymmetric() {
    let system = ForeSystem::new(0xDEADBEEF);
    let mut seq = system.process_data(b"abcdefgh");
    system.edit_frequency(&mut seq, 1, 0, GFp2 { a: 5, b: 0 });
    let s0 = seq[0];
    let s1 = seq[1];
    assert_eq!(((s0.a + s1.a) % P, (s0.b + s1.b) % P), (0, 0));
    let f = exp_phi(GFp2 { a: 0, b: 1 }, 0xDEADBEEF);
    assert_eq!(s0, mul_gfp2(&GFp2 { a: 5, b: 0 }, &f));
}

#[test]
fn edit_out_of_bounds_is_ignored() {
    let system = ForeSystem::new(7);
    let original = system.process_data(b"abcd");
    let mut seq = original.clone();
    system.edit_frequency(&mut seq, 2, 1, GFp2 { a: 5, b: 0 });
    assert_eq!(seq, original);
    system.edit_frequency(&mut seq, 1, usize::MAX, GFp2 { a: 5, b: 0 });
    assert_eq!(seq, original);
}

#[test]
fn edit_writes_only_start_when_partner_is_outside() {
    let system = ForeSystem::new(0);
    let mut seq = vec![GFp2 { a: 0, b: 0 }; 5];
    system.edit_frequency(&mut seq, 2, 1, GFp2 { a: 9, b: 2 });
    assert_eq!(seq[4], GFp2 { a: 9, b: 2 });
    assert_eq!(&seq[..4], &[GFp2 { a: 0, b: 0 }; 4]);
}

#[test]
fn edit_at_level_zero_leaves_the_negation() {
    let system = ForeSystem::new(0);
    let mut seq = vec![GFp2 { a: 0, b: 0 }; 3];
    system.edit_frequency(&mut seq, 0, 1, GFp2 { a: 9, b: 2 });
    assert_eq!(seq[1], GFp2 { a: P - 9, b: P - 2 });
}

#[test]
fn relationships_checked_on_every_level() {
    let system = ForeSystem::new(1);
    assert!(system.verify_relationships(&[]));
    assert!(system.verify_relationships(&[GFp2 { a: 0, b: 0 }]));
    assert!(!system.verify_relationships(&[GFp2 { a: 1, b: 0 }]));
    let x = GFp2 { a: 3, b: 4 };
    let nx = GFp2 { a: P - 3, b: P - 4 };
    // level 0 pairs each element with itself: only zeros pass
    assert!(!system.verify_relationships(&[x, nx]));
    let z = GFp2 { a: 0, b: 0 };
    assert!(system.verify_relationships(&[z, z, z, z]));
    assert!(!system.verify_relationships(&[z, z, z, x]));
}

#[test]
fn reconstruct_skips_undecodable_elements() {
    let system = ForeSystem::new(0);
    let data = vec![
        GFp2 { a: 72, b: 0 },
        GFp2 { a: P - 105, b: 0 },
        GFp2 { a: 200, b: 0 },
        GFp2 { a: 33, b: 1 },
        GFp2 { a: 33, b: 0 },
    ];
    assert_eq!(system.reconstruct(&data), "Hi!");
    assert_eq!(system.reconstruct(&[]), "");
}

#[test]
fn high_bytes_are_dropped_on_reconstruct() {
    let system = ForeSystem::new(99);
    let freq = system.process_data(&[65, 200, 66]);
    assert_eq!(system.reconstruct(&freq), "AB");
}

#[test]
fn different_inputs_give_different_frequencies() {
    let system = ForeSystem::new(0xDEADBEEF);
    let a = system.process_data(b"First message!");
    let b = system.process_data(b"Other message!");
    assert_ne!(a, b);
    let c = system.process_data(b"abc");
    let d = system.process_data(b"abd");
    assert_ne!(c[2], d[2]);
    assert_eq!(c[..2], d[..2]);
}

#[test]
fn cloned_system_behaves_the_same() {
    let system = ForeSystem::new(5);
    let copy = system.clone();
    assert_eq!(system.process_data(b"xyz"), copy.process_data(b"xyz"));
}

#[test]
fn edit_at_levels_beyond_usize_width() {
    let system = ForeSystem::new(0);
    let original = vec![GFp2 { a: 1, b: 1 }; 4];
    for level in [64usize, 65, 100, usize::MAX] {
        let mut seq = original.clone();
        system.edit_frequency(&mut seq, level, 1, GFp2 { a: 9, b: 2 });
        assert_eq!(seq, original);
        system.edit_frequency(&mut seq, level, 0, GFp2 { a: 9, b: 2 });
        assert_eq!(seq[0], GFp2 { a: 9, b: 2 });
        assert_eq!(&seq[1..], &original[1..]);
    }
    let mut empty: Vec<GFp2> = Vec::new();
    system.edit_frequency(&mut empty, 70, 0, GFp2 { a: 9, b: 2 });
    assert!(empty.is_empty());
}
