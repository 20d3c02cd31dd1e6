use goish::runtime::sched::p::{Ps, Sched, MAX_PS, P_IDLE, P_RUNNING};
use goish::runtime::mcentral::span::u32_to_dec;
use goish::runtime::sched::scheduler::num_cpus;
use goish::runtime::sched::stack::{
    parse_main_stack_bounds, round_up_to_page, stack_source, Stack, StackRelease, StackSource,
};

const MAPS: &[u8] = b"55d0a1e00000-55d0a1e21000 r-xp 00000000 08:01 1234 /usr/bin/prog\n\
7ffc1b2c3000-7ffc1b2e4000 rw-p 00000000 00:00 0                          [stack]\n\
7ffc1b3f0000-7ffc1b3f4000 r--p 00000000 00:00 0                          [vvar]\n";

#[test]
fn stack_bounds_from_maps() {
    assert_eq!(
        parse_main_stack_bounds(MAPS),
        Some((0x7ffc1b2c3000usize, 0x21000usize))
    );
}

#[test]
fn stack_bounds_first_line_and_upper_case() {
    let text = b"7FFC0000-7FFD0000 rw-p 0 0:0 0 [stack]";
    assert_eq!(parse_main_stack_bounds(text), Some((0x7ffc0000usize, 0x10000usize)));
}

#[test]
fn stack_bounds_missing_or_malformed() {
    assert_eq!(parse_main_stack_bounds(b""), None);
    assert_eq!(parse_main_stack_bounds(b"1000-2000 rw-p [heap]\n"), None);
    assert_eq!(parse_main_stack_bounds(b"1000 2000 rw-p [stack]\n"), None);
    assert_eq!(parse_main_stack_bounds(b"2000-1000 rw-p [stack]\n"), None);
    assert_eq!(parse_main_stack_bounds(b"0-1000 rw-p [stack]\n"), None);
    assert_eq!(parse_main_stack_bounds(b"[stack]"), None);
}

#[test]
fn cpu_count_from_mask() {
    let mask = [0xffu8, 0x0f, 0x00, 0x80];
    assert_eq!(num_cpus(&mask, 4), 13);
    assert_eq!(num_cpus(&mask, 2), 12);
    assert_eq!(num_cpus(&mask, 100), 13);
    assert_eq!(num_cpus(&mask, 0), 1);
    assert_eq!(num_cpus(&mask, -22), 1);
    assert_eq!(num_cpus(&[0u8; 8], 8), 1);
}

#[test]
fn decimal_rendering() {
    let mut buf = [b'x'; 8];
    assert_eq!(u32_to_dec(0, &mut buf), 1);
    assert_eq!(&buf, b"0xxxxxxx");
    let mut buf = [b'x'; 8];
    assert_eq!(u32_to_dec(12345, &mut buf), 5);
    assert_eq!(&buf, b"12345xxx");
    let mut buf = [0u8; 8];
    assert_eq!(u32_to_dec(4294967295, &mut buf), 8);
    assert_eq!(&buf, b"94967295");
    let mut buf = [0u8; 8];
    assert_eq!(u32_to_dec(100000000, &mut buf), 8);
    assert_eq!(&buf, b"00000000");
}

#[test]
fn stack_sources_and_release() {
    assert_eq!(round_up_to_page(1), 4096);
    assert_eq!(round_up_to_page(4096), 4096);
    assert_eq!(round_up_to_page(0), 0);
    assert_eq!(stack_source(0), StackSource::Pool(0));
    assert_eq!(stack_source(2048), StackSource::Pool(0));
    assert_eq!(stack_source(2049), StackSource::Pool(1));
    assert_eq!(stack_source(32768), StackSource::Pool(4));
    assert_eq!(stack_source(32769), StackSource::Mapped(36864));
    let s = Stack::adopted(0x7000_0000, 0x10_0000);
    assert_eq!(s.top(), 0x7010_0000);
    assert_eq!(s.release(), StackRelease::Keep);
    let s = Stack::pooled(0x5000, 2048, 3);
    assert_eq!((s.base(), s.size()), (0x5000, 2048));
    assert_eq!(s.release(), StackRelease::ToPool(3, 0x5000));
    assert_eq!(Stack::mapped(0x9000, 8192).release(), StackRelease::Unmap(0x9000, 8192));
}

#[test]
fn cleanups_run_most_recent_first() {
    use_cleanups();
}

fn use_cleanups() {
    let mut c = goish::runtime::sched::cleanup::Cleanups::new();
    c.register(1);
    c.register(2);
    c.register(3);
    c.unregister(2);
    c.unregister(9);
    c.register(4);
    assert_eq!(c.run_all(), vec![4, 3, 1]);
    assert!(c.run_all().is_empty());
}

#[test]
fn tracing_cannot_start() {
    assert_eq!(goish::runtime::trace::Start(), "execution tracing not supported by the goish runtime");
    goish::runtime::trace::Stop();
}

#[test]
fn ps_bootstrap_once_and_bind() {
    use_ps();
}

fn use_ps() {
    let mut ps = Ps::new();
    ps.bootstrap_ps(1000);
    assert_eq!(ps.num_ps(), MAX_PS);
    ps.bootstrap_ps(2);
    assert_eq!(ps.num_ps(), MAX_PS);
    let mut small = Ps::new();
    small.bootstrap_ps(2);
    assert_eq!(small.num_ps(), 2);
    assert!(small.p_at(2).is_none());
    small.acquirep(1, 0x7000);
    let p = small.p_at(1).unwrap();
    assert_eq!((p.id, p.status, p.m), (1, P_RUNNING, 0x7000));
    let r = small.releasep(1);
    assert_eq!((r.id, r.status, r.m), (1, P_IDLE, 0));
    let mut s = Sched::new();
    s.globrunqput_batch(&[5, 0, 6]);
    s.globrunqput_batch(&[7]);
    assert_eq!(s.runq_len(), 3);
    assert_eq!(s.globrunqget_one(), Some(5));
    assert_eq!(s.globrunqget_one(), Some(6));
    assert_eq!(s.globrunqget_one(), Some(7));
    assert_eq!(s.globrunqget_one(), None);
}

#[test]
fn g0_frame_is_aligned() {
    let g = goish::runtime::sched::g::g0_gobuf(0x1000, 0x2008);
    assert_eq!(g.rsp, 0x3000);
    assert_eq!((g.rbp, g.pc), (0, 0));
    let z = goish::runtime::sched::g::Gobuf::new();
    assert_eq!(z.rsp, 0);
    assert_ne!(goish::runtime::sched::g::GStatus::Idle, goish::runtime::sched::g::GStatus::Dead);
}
