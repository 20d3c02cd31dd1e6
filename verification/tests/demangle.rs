use goish::runtime::symbolize::demangle::demangle;
use goish::runtime::symbolize::demangle_v0::demangle_v0;

fn legacy(sym: &str) -> String {
    let mut out = [0u8; 256];
    let n = demangle(sym.as_bytes(), &mut out);
    String::from_utf8(out[..n].to_vec()).unwrap()
}

fn v0(sym: &str) -> String {
    let mut out = [0u8; 256];
    let n = demangle_v0(sym.as_bytes(), &mut out);
    String::from_utf8(out[..n].to_vec()).unwrap()
}

#[test]
fn legacy_plain_path() {
    assert_eq!(
        legacy("_ZN21segv_diagnostic_smoke8overflow17heb8894ecc1139a35E"),
        "segv_diagnostic_smoke::overflow"
    );
}

#[test]
fn legacy_escapes() {
    assert_eq!(
        legacy("_ZN4core3ptr23drop_in_place$LT$u8$GT$17h0123456789abcdefE"),
        "core::ptr::drop_in_place<u8>"
    );
    assert_eq!(legacy("_ZN10_$LT$T$GT$17h0123456789abcdefE"), "<T>");
    assert_eq!(legacy("_ZN7a$u20$b17h0123456789abcdefE"), "a b");
    assert_eq!(legacy("_ZN11$RF$$BP$$C$17h0123456789abcdefE"), "&*,");
    assert_eq!(legacy("_ZN3foo8bar..baz17h0123456789abcdefE"), "foo::bar::baz");
    assert_eq!(legacy("_ZN5a.b.c17h0123456789abcdefE"), "a-b-c");
    assert_eq!(legacy("_ZN3a.b17h0123456789abcdefE"), "a-b");
}

#[test]
fn legacy_rejects() {
    assert_eq!(legacy("main"), "");
    assert_eq!(legacy("_ZN3fooX"), "");
    // An unknown escape.
    assert_eq!(legacy("_ZN5$QQ$a17h0123456789abcdefE"), "");
    // A non-ASCII code point.
    assert_eq!(legacy("_ZN6$u100$17h0123456789abcdefE"), "");
    // A length that runs past the end.
    assert_eq!(legacy("_ZN99fooE"), "");
}

#[test]
fn legacy_output_too_small() {
    let mut out = [0u8; 4];
    assert_eq!(demangle(b"_ZN3foo3bar17h0123456789abcdefE", &mut out), 0);
    let mut out = [0u8; 8];
    assert_eq!(demangle(b"_ZN3foo3bar17h0123456789abcdefE", &mut out), 8);
    assert_eq!(&out, b"foo::bar");
}

#[test]
fn v0_nested_path() {
    assert_eq!(v0("_RNvC5goish3foo"), "goish::foo");
    assert_eq!(
        v0("_RNvNtNtCsc47Z2okxEDo_5goish7runtime5pprof14StopCPUProfile"),
        "goish::runtime::pprof::StopCPUProfile"
    );
}

#[test]
fn v0_closure_and_generics() {
    assert_eq!(v0("_RNCNvC5goish3foo0"), "goish::foo::{closure#0}");
    assert_eq!(v0("_RNCNvC5goish3foos_0"), "goish::foo::{closure#1}");
    assert_eq!(v0("_RINvC5goish3fooxE"), "goish::foo::<i64>");
    assert_eq!(v0("_RINvC5goish3barRShE"), "goish::bar::<&[u8]>");
    assert_eq!(v0("_RINvC5goish3bazTlEE"), "goish::baz::<(i32,)>");
    assert_eq!(v0("_RINvC5goish3fooFmEuE"), "goish::foo::<fn(u32)>");
    assert_eq!(v0("_RINvC5goish3fooKj1f_E"), "goish::foo::<31>");
    assert_eq!(v0("_RINvC5goish3fooKb1_E"), "goish::foo::<true>");
}

#[test]
fn v0_impls() {
    assert_eq!(v0("_RNvMC5goishNtC5goish3Bar3new"), "<goish::Bar>::new");
    assert_eq!(
        v0("_RNvXC5goishNtC5goish3BarNtC5goish5Trait3run"),
        "<goish::Bar as goish::Trait>::run"
    );
}

#[test]
fn v0_trailing_crate_and_rejects() {
    assert_eq!(v0("_RNvC5goish3fooC5other"), "goish::foo");
    assert_eq!(v0("_RNvC5goish3fooZ"), "");
    assert_eq!(v0("_ZN3foo3barE"), "");
    assert_eq!(v0("_R"), "");
    // Punycode names are refused.
    assert_eq!(v0("_RNvC5goishu3foo"), "");
}

#[test]
fn v0_writes_nothing_into_empty_output() {
    let mut none: [u8; 0] = [];
    assert_eq!(demangle_v0(b"_RNvC5goish3foo", &mut none), 0);
    let mut small = [0u8; 5];
    assert_eq!(demangle_v0(b"_RNvC5goish3foo", &mut small), 0);
}
