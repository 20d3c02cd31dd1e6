use goish::runtime::pprof::text::{printCountProfile, ProfileError};
use goish::runtime::pprof::{lostProfileEvent, Lookup, NewProfile, Profiles, Registry};

fn sample() -> Registry {
    let mut reg = Registry::new();
    assert_eq!(NewProfile(&mut reg, b"locks".to_vec()), 0);
    assert_eq!(NewProfile(&mut reg, b"conns".to_vec()), 1);
    reg
}

#[test]
fn lookup_and_listing_by_name() {
    let reg = sample();
    assert_eq!(Lookup(&reg, b"conns"), Some(1));
    assert_eq!(Lookup(&reg, b"locks"), Some(0));
    assert_eq!(Lookup(&reg, b"lock"), None);
    assert_eq!(Profiles(&reg), vec![1, 0]);
    assert_eq!(reg.profile(1).Name(), b"conns".to_vec());
    assert_eq!(reg.profile(1).Count(), 0);
}

#[test]
fn count_profile_text_most_frequent_first() {
    let mut reg = sample();
    reg.add_to(0, 100, vec![0x10, 0x20], 0x999);
    reg.add_to(0, 200, vec![0x10, 0x20], 0x999);
    reg.add_to(0, 300, vec![0x9], 0x999);
    reg.add_to(0, 400, vec![], 0x999);
    assert_eq!(reg.profile(0).Count(), 4);
    let text = reg.profile(0).WriteTo(1).unwrap();
    assert_eq!(
        String::from_utf8(text).unwrap(),
        "locks profile: total 4\n2 @ 0x10 0x20\n#\t0x10\n#\t0x20\n1 @ 0x9\n#\t0x9\n1 @ 0x999\n#\t0x999\n"
    );
}

#[test]
fn remove_then_ties_go_by_key_bytes() {
    let mut reg = sample();
    reg.add_to(0, 100, vec![0x10, 0x20], 0x999);
    reg.add_to(0, 200, vec![0x10, 0x20], 0x999);
    reg.add_to(0, 300, vec![0x9], 0x999);
    reg.add_to(0, 400, vec![], 0x999);
    reg.remove_from(0, 200);
    reg.remove_from(0, 12345);
    assert_eq!(reg.profile(0).Count(), 3);
    let text = reg.profile(0).WriteTo(2).unwrap();
    assert_eq!(
        String::from_utf8(text).unwrap(),
        "locks profile: total 3\n1 @ 0x10 0x20\n#\t0x10\n#\t0x20\n1 @ 0x9\n#\t0x9\n1 @ 0x999\n#\t0x999\n"
    );
}

#[test]
fn protobuf_form_is_refused() {
    let reg = sample();
    let e = reg.profile(0).WriteTo(0).unwrap_err();
    assert_eq!(e, ProfileError::ProtobufUnsupported);
    assert!(e.message().contains("use debug=1"));
    assert_eq!(printCountProfile(-1, b"x", &[]), Err(ProfileError::ProtobufUnsupported));
}

#[test]
fn empty_and_reordered_stacks() {
    assert_eq!(printCountProfile(1, b"empty", &[]).unwrap(), b"empty profile: total 0\n".to_vec());
    let a = printCountProfile(1, b"p", &[vec![0x9], vec![0x10], vec![0x9]]).unwrap();
    let b = printCountProfile(1, b"p", &[vec![0x10], vec![0x9], vec![0x9]]).unwrap();
    assert_eq!(a, b);
    assert_eq!(
        String::from_utf8(a).unwrap(),
        "p profile: total 3\n2 @ 0x9\n#\t0x9\n1 @ 0x10\n#\t0x10\n"
    );
    let c = printCountProfile(1, b"p", &[vec![0x9], vec![0x10]]).unwrap();
    assert_eq!(
        String::from_utf8(c).unwrap(),
        "p profile: total 2\n1 @ 0x10\n#\t0x10\n1 @ 0x9\n#\t0x9\n"
    );
    lostProfileEvent();
}
