use goish::runtime::pprof::cpu::{build_cpu_profile, SymFrame};

#[test]
fn stacks_are_aggregated_and_pcs_become_locations() {
    let stacks = vec![vec![0x10u64, 0x20], vec![0x30, 0x20], vec![0x10, 0x20]];
    let syms = vec![
        SymFrame { pc: 0x10, function: b"main.f".to_vec(), file: b"f.go".to_vec(), line: 3 },
        SymFrame { pc: 0x20, function: b"main.main".to_vec(), file: b"m.go".to_vec(), line: 9 },
        SymFrame { pc: 0x30, function: b"main.f".to_vec(), file: b"f.go".to_vec(), line: 5 },
    ];
    let p = build_cpu_profile(100, 350, 10, &stacks, &syms);
    assert_eq!(p.time_nanos, 100);
    assert_eq!(p.duration_nanos, 250);
    assert_eq!(p.period, 10);
    assert_eq!(p.sample_type.len(), 2);
    assert_eq!(p.sample_type[0].ty, b"samples");
    assert_eq!(p.sample_type[1].unit, b"nanoseconds");
    // Three distinct PCs, in order of first appearance.
    let addrs: Vec<u64> = p.location.iter().map(|l| l.address).collect();
    assert_eq!(addrs, vec![0x10, 0x20, 0x30]);
    let ids: Vec<u64> = p.location.iter().map(|l| l.id).collect();
    assert_eq!(ids, vec![1, 2, 3]);
    // Two functions: main.f is shared by 0x10 and 0x30.
    assert_eq!(p.function.len(), 2);
    assert_eq!(p.function[0].name, b"main.f");
    assert_eq!(p.function[1].name, b"main.main");
    assert_eq!(p.location[2].line[0].function_id, 1);
    assert_eq!(p.location[2].line[0].line, 5);
    // Two distinct stacks; the first occurred twice.
    assert_eq!(p.sample.len(), 2);
    assert_eq!(p.sample[0].location_id, vec![1, 2]);
    assert_eq!(p.sample[0].value, vec![2, 20]);
    assert_eq!(p.sample[1].location_id, vec![3, 2]);
    assert_eq!(p.sample[1].value, vec![1, 10]);
}

#[test]
fn unsymbolized_pcs_have_no_line() {
    let stacks = vec![vec![0x99u64]];
    let p = build_cpu_profile(0, 0, 10_000_000, &stacks, &[]);
    assert_eq!(p.location.len(), 1);
    assert!(p.location[0].line.is_empty());
    assert!(p.function.is_empty());
    // A nameless symbol counts as none.
    let syms = vec![SymFrame { pc: 0x99, function: vec![], file: vec![], line: 1 }];
    let p = build_cpu_profile(0, 0, 1, &stacks, &syms);
    assert!(p.location[0].line.is_empty());
}

#[test]
fn empty_ring_gives_no_samples() {
    let p = build_cpu_profile(5, 5, 1, &[], &[]);
    assert!(p.sample.is_empty());
    assert!(p.location.is_empty());
    assert_eq!(p.marshal().len() > 0, true);
}
