use goish::runtime::pprof::proto::{Function, Line, Location, Profile, Sample, ValueType};

fn vt(ty: &str, unit: &str) -> ValueType {
    ValueType { ty: ty.as_bytes().to_vec(), unit: unit.as_bytes().to_vec() }
}

#[test]
fn empty_profile_is_just_the_empty_string() {
    let p = Profile::new();
    // field 6, length 0: the empty string at index 0.
    assert_eq!(p.marshal(), vec![50, 0]);
}

#[test]
fn small_cpu_profile_bytes() {
    let mut p = Profile::new();
    p.sample_type.push(vt("samples", "count"));
    p.sample_type.push(vt("cpu", "nanoseconds"));
    p.sample.push(Sample { location_id: vec![1, 2, 3], value: vec![5, -1] });
    p.location.push(Location {
        id: 1,
        address: 0x401000,
        line: vec![Line { function_id: 1, line: 42 }],
    });
    p.function.push(Function {
        id: 1,
        name: b"main".to_vec(),
        system_name: b"main".to_vec(),
        filename: b"main.go".to_vec(),
        start_line: 0,
    });
    p.time_nanos = 1000;
    p.period_type = Some(vt("cpu", "nanoseconds"));
    p.period = 10_000_000;
    let want: Vec<u8> = vec![
        10, 4, 8, 1, 16, 2, 10, 4, 8, 3, 16, 4, 18, 18, 10, 3, 1, 2, 3, 16, 5, 16, 255, 255, 255,
        255, 255, 255, 255, 255, 255, 1, 34, 13, 8, 1, 24, 128, 160, 128, 2, 34, 4, 8, 1, 16, 42,
        42, 8, 8, 1, 16, 5, 24, 5, 32, 6, 50, 0, 50, 7, 115, 97, 109, 112, 108, 101, 115, 50, 5,
        99, 111, 117, 110, 116, 50, 3, 99, 112, 117, 50, 11, 110, 97, 110, 111, 115, 101, 99,
        111, 110, 100, 115, 50, 4, 109, 97, 105, 110, 50, 7, 109, 97, 105, 110, 46, 103, 111, 72,
        232, 7, 90, 4, 8, 3, 16, 4, 96, 128, 173, 226, 4,
    ];
    assert_eq!(p.marshal(), want);
}

#[test]
fn two_location_ids_are_not_packed() {
    let mut p = Profile::new();
    p.sample.push(Sample { location_id: vec![7, 300], value: vec![] });
    let b = p.marshal();
    // field 2, length 5: field 1 = 7, field 1 = 300 as separate varints.
    assert_eq!(&b[..7], &[18, 5, 8, 7, 8, 172, 2]);
}

#[test]
fn default_sample_type_gets_a_slot() {
    let mut p = Profile::new();
    p.default_sample_type = b"alloc_space".to_vec();
    let b = p.marshal();
    // "" then "alloc_space", and field 14 = index 1 at the end.
    assert_eq!(&b[b.len() - 2..], &[112, 1]);
}
