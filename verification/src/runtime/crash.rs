//! The report written when the process panics: what panicked and
//! where, the preemption handler's counters, and the last places it
//! preempted. The caller gathers the values and writes the bytes.
use vstd::prelude::*;
use crate::runtime::pprof::text::{decimal_text, hex_text, put_dec, put_hex, pc_sep};
use crate::runtime::pprof::proto::append_bytes;

verus! {

/// Bytes of the panic message the report keeps.
pub const MSG_LIMIT: usize = 1024;

/// Injection PCs the report lists at most.
pub const REPORT_PCS: usize = 8;

/// `goish: panic\n`.
pub open spec fn panic_head() -> Seq<u8> {
    seq![0x67u8, 0x6fu8, 0x69u8, 0x73u8, 0x68u8, 0x3au8, 0x20u8, 0x70u8, 0x61u8, 0x6eu8, 0x69u8, 0x63u8, 0x0au8]
}

/// `  at `.
pub open spec fn at_lbl() -> Seq<u8> {
    seq![0x20u8, 0x20u8, 0x61u8, 0x74u8, 0x20u8]
}

/// `  msg: `.
pub open spec fn msg_lbl() -> Seq<u8> {
    seq![0x20u8, 0x20u8, 0x6du8, 0x73u8, 0x67u8, 0x3au8, 0x20u8]
}

/// `  preempt: inv=`.
pub open spec fn inv_lbl() -> Seq<u8> {
    seq![0x20u8, 0x20u8, 0x70u8, 0x72u8, 0x65u8, 0x65u8, 0x6du8, 0x70u8, 0x74u8, 0x3au8, 0x20u8, 0x69u8, 0x6eu8, 0x76u8, 0x3du8]
}

/// ` inj=`.
pub open spec fn inj_lbl() -> Seq<u8> {
    seq![0x20u8, 0x69u8, 0x6eu8, 0x6au8, 0x3du8]
}

/// ` skip(locks=`.
pub open spec fn locks_lbl() -> Seq<u8> {
    seq![0x20u8, 0x73u8, 0x6bu8, 0x69u8, 0x70u8, 0x28u8, 0x6cu8, 0x6fu8, 0x63u8, 0x6bu8, 0x73u8, 0x3du8]
}

/// `,tramp=`.
pub open spec fn tramp_lbl() -> Seq<u8> {
    seq![0x2cu8, 0x74u8, 0x72u8, 0x61u8, 0x6du8, 0x70u8, 0x3du8]
}

/// `,park=`.
pub open spec fn park_lbl() -> Seq<u8> {
    seq![0x2cu8, 0x70u8, 0x61u8, 0x72u8, 0x6bu8, 0x3du8]
}

/// `,nocurg=`.
pub open spec fn nocurg_lbl() -> Seq<u8> {
    seq![0x2cu8, 0x6eu8, 0x6fu8, 0x63u8, 0x75u8, 0x72u8, 0x67u8, 0x3du8]
}

/// `,notrun=`.
pub open spec fn notrun_lbl() -> Seq<u8> {
    seq![0x2cu8, 0x6eu8, 0x6fu8, 0x74u8, 0x72u8, 0x75u8, 0x6eu8, 0x3du8]
}

/// `,sp=`.
pub open spec fn sp_lbl() -> Seq<u8> {
    seq![0x2cu8, 0x73u8, 0x70u8, 0x3du8]
}

/// `) m.locks=`.
pub open spec fn mlocks_lbl() -> Seq<u8> {
    seq![0x29u8, 0x20u8, 0x6du8, 0x2eu8, 0x6cu8, 0x6fu8, 0x63u8, 0x6bu8, 0x73u8, 0x3du8]
}

/// `  inject_pcs(newest-first):`.
pub open spec fn pcs_lbl() -> Seq<u8> {
    seq![0x20u8, 0x20u8, 0x69u8, 0x6eu8, 0x6au8, 0x65u8, 0x63u8, 0x74u8, 0x5fu8, 0x70u8, 0x63u8, 0x73u8, 0x28u8, 0x6eu8, 0x65u8, 0x77u8, 0x65u8, 0x73u8, 0x74u8, 0x2du8, 0x66u8, 0x69u8, 0x72u8, 0x73u8, 0x74u8, 0x29u8, 0x3au8]
}

/// `" 0x<hex>"` for each PC.
pub open spec fn pcs_text(pcs: Seq<u64>) -> Seq<u8>
    decreases pcs.len(),
{
    if pcs.len() == 0 {
        Seq::empty()
    } else {
        pcs_text(pcs.drop_last()) + pc_sep() + hex_text(pcs.last() as nat)
    }
}

/// The location line, when there is a location.
pub open spec fn at_part(loc: Option<(Seq<u8>, u32)>) -> Seq<u8> {
    match loc {
        Some((file, line)) => at_lbl() + file + seq![0x3au8] + decimal_text(line as nat) + seq![0x0au8],
        None => Seq::empty(),
    }
}

/// The kept part of the message.
pub open spec fn msg_part(msg: Seq<u8>) -> Seq<u8> {
    if msg.len() > MSG_LIMIT {
        msg.take(MSG_LIMIT as int)
    } else {
        msg
    }
}

/// The counters line.
pub open spec fn pre_part(inv: u64, inj: u64, skips: Seq<u64>, mlocks: u64) -> Seq<u8> {
    inv_lbl() + decimal_text(inv as nat) + inj_lbl() + decimal_text(inj as nat) + locks_lbl()
        + decimal_text(skips[0] as nat) + tramp_lbl() + decimal_text(skips[1] as nat) + park_lbl()
        + decimal_text(skips[2] as nat) + nocurg_lbl() + decimal_text(skips[3] as nat) + notrun_lbl()
        + decimal_text(skips[4] as nat) + sp_lbl() + decimal_text(skips[5] as nat) + mlocks_lbl()
        + decimal_text(mlocks as nat) + seq![0x0au8]
}

/// The injection PCs line, when there are any.
pub open spec fn inject_part(pcs: Seq<u64>) -> Seq<u8> {
    if pcs.len() > 0 {
        pcs_lbl() + pcs_text(pcs) + seq![0x0au8]
    } else {
        Seq::empty()
    }
}

/// The panic report.
pub open spec fn panic_report_text(
    loc: Option<(Seq<u8>, u32)>,
    msg: Seq<u8>,
    inv: u64,
    inj: u64,
    skips: Seq<u64>,
    mlocks: u64,
    pcs: Seq<u64>,
) -> Seq<u8> {
    panic_head() + at_part(loc) + msg_lbl() + msg_part(msg) + seq![0x0au8] + pre_part(inv, inj, skips, mlocks)
        + inject_part(pcs)
}

/// Appends the location line.
fn put_at(out: &mut Vec<u8>, loc: Option<(&[u8], u32)>)
    ensures
        final(out)@ == old(out)@ + at_part(
            match loc {
                Some((f, l)) => Some((f@, l)),
                None => None,
            },
        ),
{
    match loc {
        Some((file, line)) => {
            let at_lbl_b: [u8; 5] = [0x20u8, 0x20u8, 0x61u8, 0x74u8, 0x20u8];
            assert(at_lbl_b@ =~= at_lbl());
            append_bytes(out, &at_lbl_b);
            append_bytes(out, file);
            out.push(0x3au8);
            put_dec(out, line as u64);
            out.push(0x0au8);
            assert(out@ =~= old(out)@ + (at_lbl() + file@ + seq![0x3au8] + decimal_text(line as nat) + seq![0x0au8]));
        },
        None => {
            assert(out@ =~= old(out)@ + Seq::<u8>::empty());
        },
    }
}

/// Appends the message line.
fn put_msg(out: &mut Vec<u8>, msg: &[u8])
    ensures
        final(out)@ == old(out)@ + msg_lbl() + msg_part(msg@) + seq![0x0au8],
{
    let msg_lbl_b: [u8; 7] = [0x20u8, 0x20u8, 0x6du8, 0x73u8, 0x67u8, 0x3au8, 0x20u8];
    assert(msg_lbl_b@ =~= msg_lbl());
    append_bytes(out, &msg_lbl_b);
    let n = if msg.len() > MSG_LIMIT {
        MSG_LIMIT
    } else {
        msg.len()
    };
    let mut i: usize = 0;
    let ghost m0 = out@;
    while i < n
        invariant
            i <= n <= msg.len(),
            out@ == m0 + msg@.take(i as int),
        decreases n - i,
    {
        out.push(msg[i]);
        i = i + 1;
        assert(out@ =~= m0 + msg@.take(i as int));
    }
    assert(msg@.take(n as int) =~= msg_part(msg@));
    out.push(0x0au8);
    assert(out@ =~= old(out)@ + msg_lbl() + msg_part(msg@) + seq![0x0au8]);
}

/// Appends the label `l` and `v` in decimal.
fn put_field(out: &mut Vec<u8>, l: &[u8], v: u64)
    ensures
        final(out)@ == old(out)@ + l@ + decimal_text(v as nat),
{
    append_bytes(out, l);
    put_dec(out, v);
    assert(out@ =~= old(out)@ + l@ + decimal_text(v as nat));
}

/// Appends the counters line.
#[verifier::rlimit(30)]
fn put_counters(out: &mut Vec<u8>, inv: u64, inj: u64, skips: &[u64; 6], mlocks: u64)
    ensures
        final(out)@ == old(out)@ + pre_part(inv, inj, skips@, mlocks),
{
    let inv_lbl_b: [u8; 15] = [0x20u8, 0x20u8, 0x70u8, 0x72u8, 0x65u8, 0x65u8, 0x6du8, 0x70u8, 0x74u8, 0x3au8, 0x20u8, 0x69u8, 0x6eu8, 0x76u8, 0x3du8];
    assert(inv_lbl_b@ =~= inv_lbl());
    put_field(out, &inv_lbl_b, inv);
    let inj_lbl_b: [u8; 5] = [0x20u8, 0x69u8, 0x6eu8, 0x6au8, 0x3du8];
    assert(inj_lbl_b@ =~= inj_lbl());
    put_field(out, &inj_lbl_b, inj);
    let locks_lbl_b: [u8; 12] = [0x20u8, 0x73u8, 0x6bu8, 0x69u8, 0x70u8, 0x28u8, 0x6cu8, 0x6fu8, 0x63u8, 0x6bu8, 0x73u8, 0x3du8];
    assert(locks_lbl_b@ =~= locks_lbl());
    put_field(out, &locks_lbl_b, skips[0]);
    let tramp_lbl_b: [u8; 7] = [0x2cu8, 0x74u8, 0x72u8, 0x61u8, 0x6du8, 0x70u8, 0x3du8];
    assert(tramp_lbl_b@ =~= tramp_lbl());
    put_field(out, &tramp_lbl_b, skips[1]);
    let park_lbl_b: [u8; 6] = [0x2cu8, 0x70u8, 0x61u8, 0x72u8, 0x6bu8, 0x3du8];
    assert(park_lbl_b@ =~= park_lbl());
    put_field(out, &park_lbl_b, skips[2]);
    let nocurg_lbl_b: [u8; 8] = [0x2cu8, 0x6eu8, 0x6fu8, 0x63u8, 0x75u8, 0x72u8, 0x67u8, 0x3du8];
    assert(nocurg_lbl_b@ =~= nocurg_lbl());
    put_field(out, &nocurg_lbl_b, skips[3]);
    let notrun_lbl_b: [u8; 8] = [0x2cu8, 0x6eu8, 0x6fu8, 0x74u8, 0x72u8, 0x75u8, 0x6eu8, 0x3du8];
    assert(notrun_lbl_b@ =~= notrun_lbl());
    put_field(out, &notrun_lbl_b, skips[4]);
    let sp_lbl_b: [u8; 4] = [0x2cu8, 0x73u8, 0x70u8, 0x3du8];
    assert(sp_lbl_b@ =~= sp_lbl());
    put_field(out, &sp_lbl_b, skips[5]);
    let mlocks_lbl_b: [u8; 10] = [0x29u8, 0x20u8, 0x6du8, 0x2eu8, 0x6cu8, 0x6fu8, 0x63u8, 0x6bu8, 0x73u8, 0x3du8];
    assert(mlocks_lbl_b@ =~= mlocks_lbl());
    put_field(out, &mlocks_lbl_b, mlocks);
    out.push(0x0au8);
    assert(out@ =~= old(out)@ + pre_part(inv, inj, skips@, mlocks));
}

/// Appends the injection PCs line.
fn put_pcs(out: &mut Vec<u8>, pcs: &[u64])
    ensures
        final(out)@ == old(out)@ + inject_part(pcs@),
{
    if pcs.len() == 0 {
        assert(out@ =~= old(out)@ + inject_part(pcs@));
        return;
    }
    let pcs_lbl_b: [u8; 27] = [0x20u8, 0x20u8, 0x69u8, 0x6eu8, 0x6au8, 0x65u8, 0x63u8, 0x74u8, 0x5fu8, 0x70u8, 0x63u8, 0x73u8, 0x28u8, 0x6eu8, 0x65u8, 0x77u8, 0x65u8, 0x73u8, 0x74u8, 0x2du8, 0x66u8, 0x69u8, 0x72u8, 0x73u8, 0x74u8, 0x29u8, 0x3au8];
    assert(pcs_lbl_b@ =~= pcs_lbl());
    append_bytes(out, &pcs_lbl_b);
    let ghost p0 = out@;
    let mut k: usize = 0;
    while k < pcs.len()
        invariant
            k <= pcs.len(),
            out@ == p0 + pcs_text(pcs@.take(k as int)),
        decreases pcs.len() - k,
    {
        let sep: [u8; 3] = [0x20u8, 0x30u8, 0x78u8];
        assert(sep@ =~= pc_sep());
        append_bytes(out, &sep);
        put_hex(out, pcs[k]);
        assert(pcs@.take(k + 1).drop_last() =~= pcs@.take(k as int));
        k = k + 1;
        assert(out@ =~= p0 + pcs_text(pcs@.take(k as int)));
    }
    assert(pcs@.take(pcs.len() as int) =~= pcs@);
    out.push(0x0au8);
    assert(out@ =~= old(out)@ + inject_part(pcs@));
}

/// Renders the panic report: `loc` is where the panic happened, `msg`
/// its message (its first `MSG_LIMIT` bytes are kept), `inv` and `inj`
/// the preemption handler's invocations and injections, `skips` its
/// skip counts (locks, trampoline, parking, no goroutine, not running,
/// stack range), `mlocks` the M's lock count, and `pcs` the last
/// injection PCs, newest first.
pub fn panic_report(
    loc: Option<(&[u8], u32)>,
    msg: &[u8],
    inv: u64,
    inj: u64,
    skips: &[u64; 6],
    mlocks: u64,
    pcs: &[u64],
) -> (r: Vec<u8>)
    requires
        pcs@.len() <= REPORT_PCS,
    ensures
        r@ == panic_report_text(
            match loc {
                Some((f, l)) => Some((f@, l)),
                None => None,
            },
            msg@,
            inv,
            inj,
            skips@,
            mlocks,
            pcs@,
        ),
{
    let mut out: Vec<u8> = Vec::new();
    let head: [u8; 13] = [0x67u8, 0x6fu8, 0x69u8, 0x73u8, 0x68u8, 0x3au8, 0x20u8, 0x70u8, 0x61u8, 0x6eu8, 0x69u8, 0x63u8, 0x0au8];
    assert(head@ =~= panic_head());
    append_bytes(&mut out, &head);
    put_at(&mut out, loc);
    put_msg(&mut out, msg);
    put_counters(&mut out, inv, inj, skips, mlocks);
    put_pcs(&mut out, pcs);
    out
}

} // verus!
