use goish::runtime::netpoll::{
    pack_event_data, unpack_slot, unpack_tag, BlockResult, BlockStart, EpollEvent, Netpoll, EPOLLERR,
    EPOLLIN, EPOLLOUT, MODE_READ, PD_NIL, PD_READY,
};

const W: u8 = b'w';
const EVTAG: u64 = 0x7f00_1234_5678;

fn opened(np: &mut Netpoll, fd: i32) -> u32 {
    let (slot, data) = np.open(fd);
    assert_eq!(data, pack_event_data(slot, 1));
    np.open_registered();
    slot
}

fn ev(events: u32, slot: u32, fdseq: u32) -> EpollEvent {
    EpollEvent { events, data: pack_event_data(slot, fdseq) }
}

#[test]
fn event_cookie_round_trip() {
    let d = pack_event_data(5, 1);
    assert_eq!(d, (1u64 << 48) | (1u64 << 32) | 5);
    assert_eq!(unpack_slot(d), 5);
    assert_eq!(unpack_tag(d), 1);
    let d = pack_event_data(0xffff_ffff, 0x12345);
    assert_eq!(unpack_slot(d), 0xffff_ffff);
    assert_eq!(unpack_tag(d), 0x2345);
}

#[test]
fn open_close_reuses_slots() {
    let mut np = Netpoll::new();
    assert_eq!(opened(&mut np, 10), 0);
    assert_eq!(opened(&mut np, 11), 1);
    assert_eq!(np.live_count(), 2);
    assert_eq!(np.total_opens_count(), 2);
    let gone = np.close(0).unwrap();
    assert_eq!(gone.fd, 10);
    assert_eq!((gone.fdseq, gone.rseq, gone.wseq), (2, 1, 1));
    assert!(np.close(0).is_none());
    assert_eq!(np.live_count(), 1);
    assert_eq!(opened(&mut np, 12), 0);
    assert_eq!(np.recycled_count(), 1);
    assert_eq!(np.registry_get(0).unwrap().fd, 12);
    let (slot, _) = np.open(13);
    assert_eq!(slot, 2);
    np.open_failed(slot);
    assert!(np.registry_get(2).is_none());
    assert_eq!(np.live_count(), 2);
    assert_eq!(np.live_bytes(64), 128);
}

#[test]
fn park_then_readiness_wakes() {
    let mut np = Netpoll::new();
    let s = opened(&mut np, 3);
    assert_eq!(np.block_begin(s, MODE_READ), BlockStart::Park);
    assert!(np.park_commit(s, MODE_READ, 0x1000));
    let (woken, drain) = np.poll(&[ev(EPOLLIN, s, 1)], EVTAG, 0);
    assert_eq!(woken, vec![0x1000]);
    assert!(!drain);
    assert_eq!(np.registry_get(s).unwrap().rg, PD_READY);
    assert_eq!(np.block_finish(s, MODE_READ), BlockResult::Ready);
    assert_eq!(np.registry_get(s).unwrap().rg, PD_NIL);
}

#[test]
fn readiness_before_block_is_consumed() {
    let mut np = Netpoll::new();
    let s = opened(&mut np, 3);
    let (woken, _) = np.poll(&[ev(EPOLLOUT, s, 1)], EVTAG, 0);
    assert!(woken.is_empty());
    assert_eq!(np.registry_get(s).unwrap().wg, PD_READY);
    assert_eq!(np.registry_get(s).unwrap().rg, PD_NIL);
    assert_eq!(np.block_begin(s, W), BlockStart::Ready);
    assert_eq!(np.registry_get(s).unwrap().wg, PD_NIL);
}

#[test]
fn stale_and_foreign_events_are_dropped() {
    let mut np = Netpoll::new();
    let s = opened(&mut np, 3);
    let (woken, drain) = np.poll(
        &[ev(EPOLLIN, s, 2), ev(EPOLLIN, 9, 1), EpollEvent { events: EPOLLIN, data: EVTAG }, ev(0, s, 1)],
        EVTAG,
        10,
    );
    assert!(woken.is_empty());
    assert!(drain);
    assert_eq!(np.registry_get(s).unwrap().rg, PD_NIL);
    let (_, drain) = np.poll(&[EpollEvent { events: EPOLLIN, data: EVTAG }], EVTAG, 0);
    assert!(!drain);
}

#[test]
fn error_wakes_both_sides() {
    let mut np = Netpoll::new();
    let s = opened(&mut np, 3);
    assert_eq!(np.block_begin(s, MODE_READ), BlockStart::Park);
    assert!(np.park_commit(s, MODE_READ, 0x1000));
    assert_eq!(np.block_begin(s, W), BlockStart::Park);
    assert!(np.park_commit(s, W, 0x2000));
    let (woken, _) = np.poll(&[ev(EPOLLERR, s, 1)], EVTAG, 0);
    assert_eq!(woken, vec![0x1000, 0x2000]);
}

#[test]
fn deadline_fires_and_times_out() {
    let mut np = Netpoll::new();
    let s = opened(&mut np, 3);
    assert_eq!(np.set_deadline(s, 100, MODE_READ), None);
    assert_eq!(np.block_begin(s, MODE_READ), BlockStart::Park);
    assert!(np.park_commit(s, MODE_READ, 0x2000));
    assert!(np.fire_expired_deadlines(50).is_empty());
    assert_eq!(np.fire_expired_deadlines(100), vec![0x2000]);
    assert_eq!(np.registry_get(s).unwrap().rd, -1);
    assert_eq!(np.block_finish(s, MODE_READ), BlockResult::Timedout);
    assert_eq!(np.block_begin(s, MODE_READ), BlockStart::Timedout);
}

#[test]
fn reset_deadline_makes_the_old_one_stale() {
    let mut np = Netpoll::new();
    let s = opened(&mut np, 3);
    np.set_deadline(s, 100, MODE_READ);
    np.set_deadline(s, 200, MODE_READ);
    assert_eq!(np.block_begin(s, MODE_READ), BlockStart::Park);
    assert!(np.park_commit(s, MODE_READ, 0x3000));
    assert!(np.fire_expired_deadlines(150).is_empty());
    assert_eq!(np.registry_get(s).unwrap().rd, 200);
    assert_eq!(np.fire_expired_deadlines(250), vec![0x3000]);
    np.set_deadline(s, 0, MODE_READ);
    assert_eq!(np.registry_get(s).unwrap().rd, 0);
}

#[test]
fn past_deadline_wakes_at_once() {
    let mut np = Netpoll::new();
    let s = opened(&mut np, 3);
    assert_eq!(np.block_begin(s, W), BlockStart::Park);
    assert!(np.park_commit(s, W, 0x4000));
    assert_eq!(np.set_deadline(s, -1, W), Some(0x4000));
    assert_eq!(np.block_finish(s, W), BlockResult::Timedout);
}

#[test]
fn closed_descriptor_deadlines_do_nothing() {
    let mut np = Netpoll::new();
    let s = opened(&mut np, 3);
    np.set_deadline(s, 100, MODE_READ);
    np.close(s);
    let t = opened(&mut np, 4);
    assert_eq!(t, s);
    assert!(np.fire_expired_deadlines(1000).is_empty());
    assert_eq!(np.registry_get(t).unwrap().rd, 0);
    assert_eq!(np.set_deadline(77, 5, MODE_READ), None);
    assert!(!np.park_commit(77, MODE_READ, 0x5000));
    assert_eq!(np.block_finish(77, MODE_READ), BlockResult::Aborted);
}
