use goish::runtime::preempt::snapshot_injection_pcs;
use goish::runtime::signal::{sig_bitmap, SignalTable};

#[test]
fn bitmap_keeps_tracked_signals() {
    assert_eq!(sig_bitmap(&[2, 15]), (1 << 2) | (1 << 15));
    assert_eq!(sig_bitmap(&[-1, 64, 63, 0]), (1u64 << 63) | 1);
    assert_eq!(sig_bitmap(&[]), 0);
}

#[test]
fn register_merges_and_unregister_drops() {
    let mut t = SignalTable::new();
    t.register(7, &[2]);
    t.register(9, &[2, 15]);
    t.register(7, &[15]);
    assert_eq!(t.targets(2), vec![7, 9]);
    assert_eq!(t.targets(15), vec![7, 9]);
    assert_eq!(t.targets(1), Vec::<u64>::new());
    t.unregister(7);
    assert_eq!(t.targets(2), vec![9]);
    t.unregister(7);
    assert_eq!(t.targets(15), vec![9]);
}

#[test]
fn drain_counts_deliveries_since_last_look() {
    let mut t = SignalTable::new();
    assert_eq!(t.drain_count(2, 3), 3);
    assert_eq!(t.drain_count(2, 3), 0);
    assert_eq!(t.drain_count(2, 5), 2);
    assert_eq!(t.drain_count(64, 9), 0);
    assert_eq!(t.drain_count(-1, 9), 0);
    assert_eq!(t.drain_count(3, i64::MIN), i64::MIN);
}

#[test]
fn injection_ring_most_recent_first() {
    let mut ring = [0u64; 32];
    for (i, r) in ring.iter_mut().enumerate() {
        *r = 0x1000 + i as u64;
    }
    let mut out = [0u64; 4];
    assert_eq!(snapshot_injection_pcs(&ring, 3, &mut out), 3);
    assert_eq!(out, [0x1002, 0x1001, 0x1000, 0]);
    let mut out = [0u64; 40];
    assert_eq!(snapshot_injection_pcs(&ring, 33, &mut out), 32);
    assert_eq!(out[0], 0x1000);
    assert_eq!(out[1], 0x101f);
    assert_eq!(out[31], 0x1001);
    assert_eq!(out[32], 0);
    let mut out = [7u64; 2];
    assert_eq!(snapshot_injection_pcs(&ring, 0, &mut out), 0);
    assert_eq!(out, [7, 7]);
}

#[test]
fn panic_report_lists_everything() {
    use_report();
}

fn use_report() {
    let r = goish::runtime::crash::panic_report(
        Some((b"src/x.rs", 42)),
        b"boom",
        1,
        2,
        &[3, 4, 5, 6, 7, 8],
        9,
        &[0xabc, 0x10],
    );
    assert_eq!(
        String::from_utf8(r).unwrap(),
        "goish: panic\n  at src/x.rs:42\n  msg: boom\n  preempt: inv=1 inj=2 skip(locks=3,tramp=4,park=5,nocurg=6,notrun=7,sp=8) m.locks=9\n  inject_pcs(newest-first): 0xabc 0x10\n"
    );
    let long = vec![b'a'; 2000];
    let r = goish::runtime::crash::panic_report(None, &long, 0, 0, &[0; 6], 0, &[]);
    let expect = format!(
        "goish: panic\n  msg: {}\n  preempt: inv=0 inj=0 skip(locks=0,tramp=0,park=0,nocurg=0,notrun=0,sp=0) m.locks=0\n",
        "a".repeat(1024)
    );
    assert_eq!(String::from_utf8(r).unwrap(), expect);
}
