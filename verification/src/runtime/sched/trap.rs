//! The report written when the dispatcher is handed a goroutine that
//! fails its checks: the label of the failed check, the goroutine's
//! address, stack bounds and raw status, the scheduler's and the
//! preemption handler's counters, then the first 384 bytes of the
//! goroutine's record as pairs of words. The caller reads those values
//! and writes the bytes.
use vstd::prelude::*;
use crate::runtime::pprof::text::hex_char;

verus! {

/// Words of the goroutine record the report shows (384 bytes).
pub const G_DUMP_WORDS: usize = 48;

/// Labelled counters in the report.
pub const TRAP_FIELDS: usize = 15;

/// `x` as exactly `w` lowercase hex digits (its low `4 w` bits).
pub open spec fn hex_fixed(x: nat, w: nat) -> Seq<u8>
    decreases w,
{
    if w == 0 {
        Seq::empty()
    } else {
        hex_fixed(x / 16, (w - 1) as nat).push(hex_char(x % 16))
    }
}

/// `0x` and `v` as 16 hex digits.
pub open spec fn hex64(v: u64) -> Seq<u8> {
    seq![0x30u8, 0x78u8] + hex_fixed(v as nat, 16)
}

/// The report's first line.
pub open spec fn trap_head() -> Seq<u8> {
    seq![0x0au8, 0x3du8, 0x3du8, 0x3du8, 0x20u8, 0x67u8, 0x6fu8, 0x69u8, 0x73u8, 0x68u8, 0x3au8, 0x20u8, 0x64u8, 0x69u8, 0x73u8, 0x70u8, 0x61u8, 0x74u8, 0x63u8, 0x68u8, 0x5fu8, 0x6fu8, 0x6eu8, 0x65u8, 0x5fu8, 0x67u8, 0x20u8, 0x72u8, 0x65u8, 0x63u8, 0x65u8, 0x69u8, 0x76u8, 0x65u8, 0x64u8, 0x20u8, 0x62u8, 0x61u8, 0x64u8, 0x20u8, 0x47u8, 0x20u8, 0x3du8, 0x3du8, 0x3du8, 0x0au8]
}

/// The line before the words of the record.
pub open spec fn mem_head() -> Seq<u8> {
    seq![0x20u8, 0x20u8, 0x47u8, 0x20u8, 0x6du8, 0x65u8, 0x6du8, 0x6fu8, 0x72u8, 0x79u8, 0x3au8, 0x0au8]
}

/// The label of counter `i`, each 17 bytes wide.
pub open spec fn trap_label(i: int) -> Seq<u8> {
    if i == 0 {
        seq![0x20u8, 0x20u8, 0x67u8, 0x5fu8, 0x70u8, 0x74u8, 0x72u8, 0x20u8, 0x20u8, 0x20u8, 0x20u8, 0x20u8, 0x20u8, 0x20u8, 0x20u8, 0x3du8, 0x20u8]
    } else
    if i == 1 {
        seq![0x20u8, 0x20u8, 0x73u8, 0x74u8, 0x61u8, 0x63u8, 0x6bu8, 0x2eu8, 0x62u8, 0x61u8, 0x73u8, 0x65u8, 0x20u8, 0x20u8, 0x20u8, 0x3du8, 0x20u8]
    } else
    if i == 2 {
        seq![0x20u8, 0x20u8, 0x73u8, 0x74u8, 0x61u8, 0x63u8, 0x6bu8, 0x2eu8, 0x74u8, 0x6fu8, 0x70u8, 0x20u8, 0x20u8, 0x20u8, 0x20u8, 0x3du8, 0x20u8]
    } else
    if i == 3 {
        seq![0x20u8, 0x20u8, 0x73u8, 0x74u8, 0x61u8, 0x63u8, 0x6bu8, 0x2eu8, 0x73u8, 0x69u8, 0x7au8, 0x65u8, 0x20u8, 0x20u8, 0x20u8, 0x3du8, 0x20u8]
    } else
    if i == 4 {
        seq![0x20u8, 0x20u8, 0x73u8, 0x74u8, 0x61u8, 0x74u8, 0x75u8, 0x73u8, 0x5fu8, 0x72u8, 0x61u8, 0x77u8, 0x20u8, 0x20u8, 0x20u8, 0x3du8, 0x20u8]
    } else
    if i == 5 {
        seq![0x20u8, 0x20u8, 0x4cu8, 0x49u8, 0x56u8, 0x45u8, 0x5fu8, 0x47u8, 0x5fu8, 0x43u8, 0x4fu8, 0x55u8, 0x4eu8, 0x54u8, 0x20u8, 0x3du8, 0x20u8]
    } else
    if i == 6 {
        seq![0x20u8, 0x20u8, 0x44u8, 0x49u8, 0x53u8, 0x50u8, 0x41u8, 0x54u8, 0x43u8, 0x48u8, 0x5fu8, 0x43u8, 0x54u8, 0x20u8, 0x20u8, 0x3du8, 0x20u8]
    } else
    if i == 7 {
        seq![0x20u8, 0x20u8, 0x70u8, 0x72u8, 0x65u8, 0x65u8, 0x6du8, 0x70u8, 0x74u8, 0x5fu8, 0x69u8, 0x6eu8, 0x76u8, 0x20u8, 0x20u8, 0x3du8, 0x20u8]
    } else
    if i == 8 {
        seq![0x20u8, 0x20u8, 0x70u8, 0x72u8, 0x65u8, 0x65u8, 0x6du8, 0x70u8, 0x74u8, 0x5fu8, 0x69u8, 0x6eu8, 0x6au8, 0x20u8, 0x20u8, 0x3du8, 0x20u8]
    } else
    if i == 9 {
        seq![0x20u8, 0x20u8, 0x73u8, 0x6bu8, 0x69u8, 0x70u8, 0x5fu8, 0x6cu8, 0x6fu8, 0x63u8, 0x6bu8, 0x73u8, 0x20u8, 0x20u8, 0x20u8, 0x3du8, 0x20u8]
    } else
    if i == 10 {
        seq![0x20u8, 0x20u8, 0x73u8, 0x6bu8, 0x69u8, 0x70u8, 0x5fu8, 0x74u8, 0x72u8, 0x61u8, 0x6du8, 0x70u8, 0x20u8, 0x20u8, 0x20u8, 0x3du8, 0x20u8]
    } else
    if i == 11 {
        seq![0x20u8, 0x20u8, 0x73u8, 0x6bu8, 0x69u8, 0x70u8, 0x5fu8, 0x70u8, 0x61u8, 0x72u8, 0x6bu8, 0x69u8, 0x6eu8, 0x67u8, 0x20u8, 0x3du8, 0x20u8]
    } else
    if i == 12 {
        seq![0x20u8, 0x20u8, 0x73u8, 0x6bu8, 0x69u8, 0x70u8, 0x5fu8, 0x6eu8, 0x6fu8, 0x63u8, 0x75u8, 0x72u8, 0x67u8, 0x20u8, 0x20u8, 0x3du8, 0x20u8]
    } else
    if i == 13 {
        seq![0x20u8, 0x20u8, 0x73u8, 0x6bu8, 0x69u8, 0x70u8, 0x5fu8, 0x6eu8, 0x6fu8, 0x74u8, 0x72u8, 0x75u8, 0x6eu8, 0x20u8, 0x20u8, 0x3du8, 0x20u8]
    } else
    if i == 14 {
        seq![0x20u8, 0x20u8, 0x73u8, 0x6bu8, 0x69u8, 0x70u8, 0x5fu8, 0x73u8, 0x70u8, 0x72u8, 0x61u8, 0x6eu8, 0x67u8, 0x65u8, 0x20u8, 0x3du8, 0x20u8]
    } else {
        Seq::empty()
    }
}

/// `top - base`, wrapping.
pub open spec fn wrapped_size(base: u64, top: u64) -> u64 {
    if top >= base {
        (top - base) as u64
    } else {
        (top - base + 0x1_0000_0000_0000_0000) as u64
    }
}

/// The counters in report order.
pub open spec fn trap_values(
    g_addr: u64,
    stack_base: u64,
    stack_top: u64,
    status_raw: u8,
    live_g: u64,
    dispatch_ct: u64,
    inv: u64,
    inj: u64,
    skips: Seq<u64>,
) -> Seq<u64> {
    seq![
        g_addr,
        stack_base,
        stack_top,
        wrapped_size(stack_base, stack_top),
        status_raw as u64,
        live_g,
        dispatch_ct,
        inv,
        inj,
        skips[0],
        skips[1],
        skips[2],
        skips[3],
        skips[4],
        skips[5],
    ]
}

/// The first `n` labelled counter lines.
pub open spec fn field_lines(vals: Seq<u64>, n: nat) -> Seq<u8>
    decreases n,
{
    if n == 0 {
        Seq::empty()
    } else {
        field_lines(vals, (n - 1) as nat) + trap_label(n - 1) + hex64(vals[n - 1]) + seq![0x0au8]
    }
}

/// Row `r` of the record: `  +0xOOO = ` with the row's offset, then
/// its two words.
pub open spec fn mem_row(words: Seq<u64>, r: int) -> Seq<u8> {
    seq![0x20u8, 0x20u8, 0x2bu8, 0x30u8, 0x78u8] + hex_fixed((16 * r) as nat, 3) + seq![0x20u8, 0x3du8, 0x20u8]
        + hex64(words[2 * r]) + seq![0x20u8] + hex64(words[2 * r + 1]) + seq![0x0au8]
}

/// The first `n` rows of the record.
pub open spec fn mem_rows(words: Seq<u64>, n: nat) -> Seq<u8>
    decreases n,
{
    if n == 0 {
        Seq::empty()
    } else {
        mem_rows(words, (n - 1) as nat) + mem_row(words, n - 1)
    }
}

/// The whole report.
pub open spec fn g_trap_dump_spec(
    label: Seq<u8>,
    g_addr: u64,
    stack_base: u64,
    stack_top: u64,
    status_raw: u8,
    live_g: u64,
    dispatch_ct: u64,
    inv: u64,
    inj: u64,
    skips: Seq<u64>,
    words: Seq<u64>,
) -> Seq<u8> {
    trap_head() + label + seq![0x0au8] + field_lines(
        trap_values(g_addr, stack_base, stack_top, status_raw, live_g, dispatch_ct, inv, inj, skips),
        TRAP_FIELDS as nat,
    ) + mem_head() + mem_rows(words, (G_DUMP_WORDS / 2) as nat)
}

/// Appends `x` as exactly `w` hex digits.
fn put_hex_fixed(out: &mut Vec<u8>, x: u64, w: usize)
    ensures
        final(out)@ == old(out)@ + hex_fixed(x as nat, w as nat),
    decreases w,
{
    if w > 0 {
        put_hex_fixed(out, x / 16, w - 1);
        let d = (x % 16) as u8;
        let c = if d < 10 {
            0x30 + d
        } else {
            0x57 + d
        };
        out.push(c);
        assert(final(out)@ =~= old(out)@ + hex_fixed(x as nat, w as nat));
    } else {
        assert(final(out)@ =~= old(out)@ + hex_fixed(x as nat, w as nat));
    }
}

/// Appends `0x` and `v` as 16 hex digits.
fn put_hex64(out: &mut Vec<u8>, v: u64)
    ensures
        final(out)@ == old(out)@ + hex64(v),
{
    out.push(0x30);
    out.push(0x78);
    put_hex_fixed(out, v, 16);
    assert(final(out)@ =~= old(out)@ + hex64(v));
}

/// Appends the bytes of `s`.
fn put_bytes(out: &mut Vec<u8>, s: &[u8])
    ensures
        final(out)@ == old(out)@ + s@,
{
    let mut i: usize = 0;
    while i < s.len()
        invariant
            i <= s@.len(),
            out@ == old(out)@ + s@.subrange(0, i as int),
        decreases s@.len() - i,
    {
        out.push(s[i]);
        proof {
            assert(s@.subrange(0, i + 1) =~= s@.subrange(0, i as int).push(s@[i as int]));
        }
        i += 1;
    }
    assert(s@.subrange(0, s@.len() as int) =~= s@);
}

/// The label of counter `i`.
fn trap_label_bytes(i: usize) -> (r: [u8; 17])
    requires
        i < TRAP_FIELDS,
    ensures
        r@ == trap_label(i as int),
{
    let r =
    if i == 0 {
        [0x20u8, 0x20u8, 0x67u8, 0x5fu8, 0x70u8, 0x74u8, 0x72u8, 0x20u8, 0x20u8, 0x20u8, 0x20u8, 0x20u8, 0x20u8, 0x20u8, 0x20u8, 0x3du8, 0x20u8]
    } else
    if i == 1 {
        [0x20u8, 0x20u8, 0x73u8, 0x74u8, 0x61u8, 0x63u8, 0x6bu8, 0x2eu8, 0x62u8, 0x61u8, 0x73u8, 0x65u8, 0x20u8, 0x20u8, 0x20u8, 0x3du8, 0x20u8]
    } else
    if i == 2 {
        [0x20u8, 0x20u8, 0x73u8, 0x74u8, 0x61u8, 0x63u8, 0x6bu8, 0x2eu8, 0x74u8, 0x6fu8, 0x70u8, 0x20u8, 0x20u8, 0x20u8, 0x20u8, 0x3du8, 0x20u8]
    } else
    if i == 3 {
        [0x20u8, 0x20u8, 0x73u8, 0x74u8, 0x61u8, 0x63u8, 0x6bu8, 0x2eu8, 0x73u8, 0x69u8, 0x7au8, 0x65u8, 0x20u8, 0x20u8, 0x20u8, 0x3du8, 0x20u8]
    } else
    if i == 4 {
        [0x20u8, 0x20u8, 0x73u8, 0x74u8, 0x61u8, 0x74u8, 0x75u8, 0x73u8, 0x5fu8, 0x72u8, 0x61u8, 0x77u8, 0x20u8, 0x20u8, 0x20u8, 0x3du8, 0x20u8]
    } else
    if i == 5 {
        [0x20u8, 0x20u8, 0x4cu8, 0x49u8, 0x56u8, 0x45u8, 0x5fu8, 0x47u8, 0x5fu8, 0x43u8, 0x4fu8, 0x55u8, 0x4eu8, 0x54u8, 0x20u8, 0x3du8, 0x20u8]
    } else
    if i == 6 {
        [0x20u8, 0x20u8, 0x44u8, 0x49u8, 0x53u8, 0x50u8, 0x41u8, 0x54u8, 0x43u8, 0x48u8, 0x5fu8, 0x43u8, 0x54u8, 0x20u8, 0x20u8, 0x3du8, 0x20u8]
    } else
    if i == 7 {
        [0x20u8, 0x20u8, 0x70u8, 0x72u8, 0x65u8, 0x65u8, 0x6du8, 0x70u8, 0x74u8, 0x5fu8, 0x69u8, 0x6eu8, 0x76u8, 0x20u8, 0x20u8, 0x3du8, 0x20u8]
    } else
    if i == 8 {
        [0x20u8, 0x20u8, 0x70u8, 0x72u8, 0x65u8, 0x65u8, 0x6du8, 0x70u8, 0x74u8, 0x5fu8, 0x69u8, 0x6eu8, 0x6au8, 0x20u8, 0x20u8, 0x3du8, 0x20u8]
    } else
    if i == 9 {
        [0x20u8, 0x20u8, 0x73u8, 0x6bu8, 0x69u8, 0x70u8, 0x5fu8, 0x6cu8, 0x6fu8, 0x63u8, 0x6bu8, 0x73u8, 0x20u8, 0x20u8, 0x20u8, 0x3du8, 0x20u8]
    } else
    if i == 10 {
        [0x20u8, 0x20u8, 0x73u8, 0x6bu8, 0x69u8, 0x70u8, 0x5fu8, 0x74u8, 0x72u8, 0x61u8, 0x6du8, 0x70u8, 0x20u8, 0x20u8, 0x20u8, 0x3du8, 0x20u8]
    } else
    if i == 11 {
        [0x20u8, 0x20u8, 0x73u8, 0x6bu8, 0x69u8, 0x70u8, 0x5fu8, 0x70u8, 0x61u8, 0x72u8, 0x6bu8, 0x69u8, 0x6eu8, 0x67u8, 0x20u8, 0x3du8, 0x20u8]
    } else
    if i == 12 {
        [0x20u8, 0x20u8, 0x73u8, 0x6bu8, 0x69u8, 0x70u8, 0x5fu8, 0x6eu8, 0x6fu8, 0x63u8, 0x75u8, 0x72u8, 0x67u8, 0x20u8, 0x20u8, 0x3du8, 0x20u8]
    } else
    if i == 13 {
        [0x20u8, 0x20u8, 0x73u8, 0x6bu8, 0x69u8, 0x70u8, 0x5fu8, 0x6eu8, 0x6fu8, 0x74u8, 0x72u8, 0x75u8, 0x6eu8, 0x20u8, 0x20u8, 0x3du8, 0x20u8]
    } else
    if i == 14 {
        [0x20u8, 0x20u8, 0x73u8, 0x6bu8, 0x69u8, 0x70u8, 0x5fu8, 0x73u8, 0x70u8, 0x72u8, 0x61u8, 0x6eu8, 0x67u8, 0x65u8, 0x20u8, 0x3du8, 0x20u8]
    } else {
        [0u8; 17]
    };
    assert(r@ =~= trap_label(i as int));
    r
}

/// `g_trap_dump_text` — the report on a goroutine that failed the
/// dispatcher's checks, as `g_trap_dump_spec` says. `label` names the
/// failed check; `g_words` are the first 384 bytes of the goroutine's
/// record as words; `skips` are the preemption handler's six skip
/// counters.
pub fn g_trap_dump_text(
    label: &[u8],
    g_addr: u64,
    stack_base: u64,
    stack_top: u64,
    status_raw: u8,
    live_g: u64,
    dispatch_ct: u64,
    inv: u64,
    inj: u64,
    skips: &[u64; 6],
    g_words: &[u64],
) -> (r: Vec<u8>)
    requires
        g_words@.len() == G_DUMP_WORDS,
    ensures
        r@ == g_trap_dump_spec(
            label@,
            g_addr,
            stack_base,
            stack_top,
            status_raw,
            live_g,
            dispatch_ct,
            inv,
            inj,
            skips@,
            g_words@,
        ),
{
    let mut out: Vec<u8> = Vec::new();
    let head: [u8; 46] = [0x0au8, 0x3du8, 0x3du8, 0x3du8, 0x20u8, 0x67u8, 0x6fu8, 0x69u8, 0x73u8, 0x68u8, 0x3au8, 0x20u8, 0x64u8, 0x69u8, 0x73u8, 0x70u8, 0x61u8, 0x74u8, 0x63u8, 0x68u8, 0x5fu8, 0x6fu8, 0x6eu8, 0x65u8, 0x5fu8, 0x67u8, 0x20u8, 0x72u8, 0x65u8, 0x63u8, 0x65u8, 0x69u8, 0x76u8, 0x65u8, 0x64u8, 0x20u8, 0x62u8, 0x61u8, 0x64u8, 0x20u8, 0x47u8, 0x20u8, 0x3du8, 0x3du8, 0x3du8, 0x0au8];
    put_bytes(&mut out, &head);
    put_bytes(&mut out, label);
    out.push(0x0a);
    let size = if stack_top >= stack_base {
        stack_top - stack_base
    } else {
        (u64::MAX - (stack_base - stack_top)) + 1
    };
    let vals: [u64; 15] = [
        g_addr,
        stack_base,
        stack_top,
        size,
        status_raw as u64,
        live_g,
        dispatch_ct,
        inv,
        inj,
        skips[0],
        skips[1],
        skips[2],
        skips[3],
        skips[4],
        skips[5],
    ];
    let ghost tv = trap_values(g_addr, stack_base, stack_top, status_raw, live_g, dispatch_ct, inv, inj, skips@);
    assert(vals@ =~= tv);
    let ghost start = out@;
    let mut i: usize = 0;
    while i < TRAP_FIELDS
        invariant
            i <= TRAP_FIELDS,
            vals@ == tv,
            out@ == start + field_lines(tv, i as nat),
        decreases TRAP_FIELDS - i,
    {
        let l = trap_label_bytes(i);
        put_bytes(&mut out, &l);
        put_hex64(&mut out, vals[i]);
        out.push(0x0a);
        assert(out@ =~= start + field_lines(tv, (i + 1) as nat));
        i += 1;
    }
    let memh: [u8; 12] = [0x20u8, 0x20u8, 0x47u8, 0x20u8, 0x6du8, 0x65u8, 0x6du8, 0x6fu8, 0x72u8, 0x79u8, 0x3au8, 0x0au8];
    put_bytes(&mut out, &memh);
    let ghost start2 = out@;
    let mut r: usize = 0;
    while r < G_DUMP_WORDS / 2
        invariant
            r <= G_DUMP_WORDS / 2,
            g_words@.len() == G_DUMP_WORDS,
            out@ == start2 + mem_rows(g_words@, r as nat),
        decreases G_DUMP_WORDS / 2 - r,
    {
        let ghost row0 = out@;
        out.push(0x20);
        out.push(0x20);
        out.push(0x2b);
        out.push(0x30);
        out.push(0x78);
        put_hex_fixed(&mut out, (16 * r) as u64, 3);
        out.push(0x20);
        out.push(0x3d);
        out.push(0x20);
        put_hex64(&mut out, g_words[2 * r]);
        out.push(0x20);
        put_hex64(&mut out, g_words[2 * r + 1]);
        out.push(0x0a);
        assert(out@ =~= row0 + mem_row(g_words@, r as int));
        assert(out@ =~= start2 + mem_rows(g_words@, (r + 1) as nat));
        r += 1;
    }
    assert(out@ =~= g_trap_dump_spec(
        label@,
        g_addr,
        stack_base,
        stack_top,
        status_raw,
        live_g,
        dispatch_ct,
        inv,
        inj,
        skips@,
        g_words@,
    ));
    out
}

} // verus!
