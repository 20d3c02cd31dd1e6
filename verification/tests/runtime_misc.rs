use goish::runtime::pkginit::{PkgInit, DONE, UNINIT};
use goish::runtime::sched::stackpool::{order_for, size_for};
use goish::runtime::{FuncForPC, GoroutineProfile, NumCgoCall, Version, GOROOT};
use goish::runtime::Caller;
use goish::runtime::Callers;
use goish::runtime::drop_own_frame;
use goish::runtime::args::{envp_lookup, MAX_ENV_ENTRIES, MAX_ENV_VALUE};

#[test]
fn pkg_init_runs_once() {
    let mut slot = PkgInit::new("demo");
    assert_eq!(slot.state(), UNINIT);
    assert!(!slot.is_done());
    let mut count = 0;
    slot.run_once(|| count += 1);
    assert!(slot.is_done());
    assert_eq!(slot.state(), DONE);
    slot.run_once(|| count += 1);
    assert_eq!(count, 1);
}

#[test]
fn stack_orders() {
    assert_eq!(order_for(0), None);
    assert_eq!(order_for(1), Some(0));
    assert_eq!(order_for(2048), Some(0));
    assert_eq!(order_for(2049), Some(1));
    assert_eq!(order_for(32768), Some(4));
    assert_eq!(order_for(32769), None);
    assert_eq!(size_for(0), 2048);
    assert_eq!(size_for(4), 32768);
}

#[test]
fn version_and_stubs() {
    assert_eq!(Version(), "goish1.0");
    assert_eq!(GOROOT(), "");
    assert_eq!(NumCgoCall(), 0);
    assert_eq!(GoroutineProfile(&[]), (0, false));
    assert!(FuncForPC(0x401000).is_none());
    goish::runtime::LockOSThread();
    goish::runtime::UnlockOSThread();
    goish::runtime::GC();
}

#[test]
fn caller_picks_the_frame_above() {
    let frames = [0x10, 0x20, 0x30, 0];
    assert_eq!(Caller(0, &frames), (0x20, true));
    assert_eq!(Caller(1, &frames), (0x30, true));
    assert_eq!(Caller(2, &frames), (0, false));
    assert_eq!(Caller(3, &frames), (0, false));
    assert_eq!(Caller(-1, &frames), (0, false));
    assert_eq!(Caller(i64::MAX, &frames), (0, false));
}

#[test]
fn callers_copies_from_skip_until_zero_or_full() {
    let frames = [0x10, 0x20, 0x30, 0x40, 0, 0x60];
    let mut pcs = [9u64; 8];
    assert_eq!(Callers(1, &frames, &mut pcs), 3);
    assert_eq!(pcs, [0x20, 0x30, 0x40, 9, 9, 9, 9, 9]);
    let mut small = [9u64; 2];
    assert_eq!(Callers(0, &frames, &mut small), 2);
    assert_eq!(small, [0x10, 0x20]);
    let mut none: [u64; 0] = [];
    assert_eq!(Callers(0, &frames, &mut none), 0);
    assert_eq!(Callers(-1, &frames, &mut pcs), 0);
    assert_eq!(Callers(6, &frames, &mut pcs), 0);
}

#[test]
fn drop_own_frame_shifts_left() {
    let mut f = [1u64, 2, 3, 4, 5];
    assert_eq!(drop_own_frame(&mut f, 3), 2);
    assert_eq!(f, [2, 3, 0, 0, 0]);
    let mut g = [7u64, 8];
    assert_eq!(drop_own_frame(&mut g, 0), 0);
    assert_eq!(g, [7, 8]);
}

#[test]
fn envp_lookup_finds_the_first_match() {
    let env = vec![
        b"PATH=/bin".to_vec(),
        b"GOISH_X=1".to_vec(),
        b"GOISH_X=2".to_vec(),
        b"EMPTY=".to_vec(),
        b"NOEQ".to_vec(),
    ];
    assert_eq!(envp_lookup(&env, b"GOISH_X"), Some(b"1".to_vec()));
    assert_eq!(envp_lookup(&env, b"PATH"), Some(b"/bin".to_vec()));
    assert_eq!(envp_lookup(&env, b"EMPTY"), Some(vec![]));
    assert_eq!(envp_lookup(&env, b"PAT"), None);
    assert_eq!(envp_lookup(&env, b"NOEQ"), None);
    assert_eq!(envp_lookup(&env, b"MISSING"), None);
}

#[test]
fn envp_lookup_caps() {
    let mut long = b"BIG=".to_vec();
    long.extend(std::iter::repeat(b'x').take(MAX_ENV_VALUE + 10));
    assert_eq!(envp_lookup(&[long], b"BIG").unwrap().len(), MAX_ENV_VALUE);
    let mut env: Vec<Vec<u8>> = (0..MAX_ENV_ENTRIES).map(|_| b"A=1".to_vec()).collect();
    env.push(b"LATE=1".to_vec());
    assert_eq!(envp_lookup(&env, b"LATE"), None);
}
