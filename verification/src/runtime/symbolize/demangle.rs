//! The Rust legacy (Itanium-style) symbol demangler.
//!
//! A legacy symbol reads `_ZN<len><name><len><name>...17h<16 hex>E`; the
//! names are joined with `::` and the trailing hash segment is dropped.
//! Inside a name `..` stands for `::`, and `$..$` escapes stand for one
//! punctuation byte each (`$LT$` is `<`, `$u20$` is a space, ...).
//!
//! The output goes into a buffer that the caller supplies, so that the
//! demangler can run where nothing may be allocated. A result of 0 means
//! "not a legacy symbol this understands, or it did not fit": the caller
//! prints the raw symbol.
use vstd::prelude::*;
use crate::runtime::symbolize::v0_spec::ascii;

verus! {

/// Length of the trailing hash segment: `h` and 16 hex digits.
pub const HASH_LEN: usize = 17;

/// `c` is a digit of the given base (10, or 16 when `hex`).
pub open spec fn is_dig(c: u8, hex: bool) -> bool {
    if hex {
        (48 <= c <= 57) || (97 <= c <= 102) || (65 <= c <= 70)
    } else {
        48 <= c <= 57
    }
}

/// The value of the digit `c`.
pub open spec fn dig_val(c: u8, hex: bool) -> int {
    if 48 <= c <= 57 {
        c - 48
    } else if 97 <= c <= 102 {
        c - 87
    } else if 65 <= c <= 70 {
        c - 55
    } else {
        0
    }
}

/// The value of the digits `s[i..j]`, most significant first.
pub open spec fn num(s: Seq<u8>, i: int, j: int, hex: bool) -> int
    decreases j - i,
{
    if j <= i {
        0
    } else {
        num(s, i, j - 1, hex) * (if hex { 16int } else { 10int }) + dig_val(s[j - 1], hex)
    }
}

/// Every byte of `s[i..j]` is a digit.
pub open spec fn all_dig(s: Seq<u8>, i: int, j: int, hex: bool) -> bool {
    forall|k: int| i <= k < j ==> #[trigger] is_dig(s[k], hex)
}

/// Where the run of decimal digits that starts at `i` ends.
pub open spec fn digits_end(s: Seq<u8>, i: int) -> int
    decreases s.len() - i,
{
    if 0 <= i < s.len() && is_dig(s[i], false) {
        digits_end(s, i + 1)
    } else {
        i
    }
}

/// The decimal number at `i` and the offset after it: `None` when there
/// is no digit there or the number does not fit in a `usize`.
pub open spec fn decimal_at(s: Seq<u8>, i: int) -> Option<(int, int)> {
    let j = digits_end(s, i);
    if j == i || num(s, i, j, false) > usize::MAX {
        None
    } else {
        Some((num(s, i, j, false), j))
    }
}

pub proof fn lemma_num_nonneg(s: Seq<u8>, i: int, j: int, hex: bool)
    ensures
        num(s, i, j, hex) >= 0,
    decreases j - i,
{
    if j > i {
        lemma_num_nonneg(s, i, j - 1, hex);
    }
}

pub proof fn lemma_num_mono(s: Seq<u8>, i: int, k: int, j: int, hex: bool)
    requires
        i <= k <= j,
        all_dig(s, i, j, hex),
    ensures
        num(s, i, k, hex) <= num(s, i, j, hex),
    decreases j - k,
{
    if k < j {
        lemma_num_mono(s, i, k, j - 1, hex);
        lemma_num_nonneg(s, i, j - 1, hex);
        assert(is_dig(s[j - 1], hex));
    }
}

proof fn lemma_digits_end(s: Seq<u8>, i: int)
    requires
        0 <= i <= s.len(),
    ensures
        i <= digits_end(s, i) <= s.len(),
        all_dig(s, i, digits_end(s, i), false),
        digits_end(s, i) < s.len() ==> !is_dig(s[digits_end(s, i)], false),
    decreases s.len() - i,
{
    if i < s.len() && is_dig(s[i], false) {
        lemma_digits_end(s, i + 1);
    }
}

/// The decimal number at `i`, as `decimal_at` says.
fn read_decimal(s: &[u8], i0: usize) -> (r: Option<(usize, usize)>)
    requires
        i0 <= s@.len(),
    ensures
        match decimal_at(s@, i0 as int) {
            Some((n, j)) => r matches Some((a, b)) && a == n && b == j,
            None => r is None,
        },
{
    proof {
        lemma_digits_end(s@, i0 as int);
        lemma_num_nonneg(s@, i0 as int, digits_end(s@, i0 as int), false);
    }
    let mut i = i0;
    let mut n: usize = 0;
    while i < s.len() && 48 <= s[i] && s[i] <= 57
        invariant
            i0 <= i <= digits_end(s@, i0 as int),
            digits_end(s@, i0 as int) <= s@.len(),
            all_dig(s@, i0 as int, digits_end(s@, i0 as int), false),
            digits_end(s@, i0 as int) < s@.len() ==> !is_dig(s@[digits_end(s@, i0 as int)], false),
            n == num(s@, i0 as int, i as int, false),
        decreases s@.len() - i,
    {
        let d = (s[i] - 48) as usize;
        proof {
            lemma_num_mono(s@, i0 as int, i + 1, digits_end(s@, i0 as int), false);
        }
        match n.checked_mul(10) {
            Some(m) => match m.checked_add(d) {
                Some(v) => {
                    n = v;
                },
                None => {
                    return None;
                },
            },
            None => {
                return None;
            },
        }
        i = i + 1;
    }
    assert(i == digits_end(s@, i0 as int)) by {
        if i < digits_end(s@, i0 as int) {
            assert(is_dig(s@[i as int], false));
        }
    }
    if i == i0 {
        return None;
    }
    Some((n, i))
}

/// The value of the hex digits `s[i..j]`: `None` when the run is empty,
/// holds a byte that is not a hex digit, or does not fit in a `u32`.
fn parse_hex(s: &[u8], lo: usize, hi: usize) -> (r: Option<u32>)
    requires
        lo <= hi <= s@.len(),
    ensures
        r is Some <==> (lo < hi && all_dig(s@, lo as int, hi as int, true) && num(
            s@,
            lo as int,
            hi as int,
            true,
        ) <= u32::MAX),
        r matches Some(v) ==> v == num(s@, lo as int, hi as int, true),
{
    if lo == hi {
        return None;
    }
    let mut v: u32 = 0;
    let mut i = lo;
    while i < hi
        invariant
            lo <= i <= hi <= s@.len(),
            all_dig(s@, lo as int, i as int, true),
            v == num(s@, lo as int, i as int, true),
        decreases hi - i,
    {
        let b = s[i];
        let d: u32 = if 48 <= b && b <= 57 {
            (b - 48) as u32
        } else if 97 <= b && b <= 102 {
            (b - 87) as u32
        } else if 65 <= b && b <= 70 {
            (b - 55) as u32
        } else {
            assert(!is_dig(s@[i as int], true));
            return None;
        };
        assert(is_dig(s@[i as int], true));
        match v.checked_mul(16) {
            Some(m) => match m.checked_add(d) {
                Some(w) => {
                    v = w;
                },
                None => {
                    proof {
                        lemma_hex_overflow(s@, lo as int, i as int, hi as int);
                    }
                    return None;
                },
            },
            None => {
                proof {
                    lemma_hex_overflow(s@, lo as int, i as int, hi as int);
                }
                return None;
            },
        }
        i = i + 1;
    }
    Some(v)
}

/// Once a prefix of a hex run is too large, the whole run is, or the run
/// holds a byte that is not a hex digit.
proof fn lemma_hex_overflow(s: Seq<u8>, lo: int, i: int, hi: int)
    requires
        lo <= i < hi,
        is_dig(s[i], true),
        all_dig(s, lo, i, true),
        num(s, lo, i + 1, true) > u32::MAX,
    ensures
        !(all_dig(s, lo, hi, true) && num(s, lo, hi, true) <= u32::MAX),
{
    if all_dig(s, lo, hi, true) {
        lemma_num_mono(s, lo, i + 1, hi, true);
    }
}


/// `p` in front of what `r` holds, or `None`.
pub open spec fn cat(p: Seq<u8>, r: Option<Seq<u8>>) -> Option<Seq<u8>> {
    match r {
        Some(t) => Some(p + t),
        None => None,
    }
}

/// `r` holds an output that fits in `cap` bytes from offset `o` on.
pub open spec fn fits(r: Option<Seq<u8>>, o: int, cap: int) -> bool {
    r matches Some(d) && o + d.len() <= cap
}

/// The first `$` in `s[i..hi]`, or `hi` when there is none.
pub open spec fn next_dollar(s: Seq<u8>, i: int, hi: int) -> int
    decreases hi - i,
{
    if i < hi && s[i] != 36 {
        next_dollar(s, i + 1, hi)
    } else {
        i
    }
}

pub proof fn lemma_next_dollar(s: Seq<u8>, i: int, hi: int)
    requires
        i <= hi,
    ensures
        i <= next_dollar(s, i, hi) <= hi,
        next_dollar(s, i, hi) < hi ==> s[next_dollar(s, i, hi)] == 36,
        forall|k: int| i <= k < next_dollar(s, i, hi) ==> s[k] != 36,
    decreases hi - i,
{
    if i < hi && s[i] != 36 {
        lemma_next_dollar(s, i + 1, hi);
    }
}

/// The byte that the escape `$s[lo..hi]$` stands for.
pub open spec fn escape_of(s: Seq<u8>, lo: int, hi: int) -> Option<u8> {
    let e = s.subrange(lo, hi);
    if e == seq![83u8, 80u8] {
        Some(64u8)
    } else if e == seq![66u8, 80u8] {
        Some(42u8)
    } else if e == seq![82u8, 70u8] {
        Some(38u8)
    } else if e == seq![76u8, 84u8] {
        Some(60u8)
    } else if e == seq![71u8, 84u8] {
        Some(62u8)
    } else if e == seq![76u8, 80u8] {
        Some(40u8)
    } else if e == seq![82u8, 80u8] {
        Some(41u8)
    } else if e == seq![67u8] {
        Some(44u8)
    } else if hi - lo >= 2 && s[lo] == 117 && all_dig(s, lo + 1, hi, true) && num(
        s,
        lo + 1,
        hi,
        true,
    ) <= 0x7f {
        Some(num(s, lo + 1, hi, true) as u8)
    } else {
        None
    }
}

/// The lowercase hex digit of `d < 16`.
pub open spec fn lower_hex_digit(d: int) -> u8 {
    if d < 10 {
        ('0' as int + d) as u8
    } else {
        ('a' as int + d - 10) as u8
    }
}

/// The legacy escapes: `$SP$` is `@`, `$BP$` is `*`, `$RF$` is `&`,
/// `$LT$` is `<`, `$GT$` is `>`, `$LP$` is `(`, `$RP$` is `)`, `$C$` is
/// `,`, and `$uXX$` is the ASCII byte with the hex code `XX`.
pub proof fn lemma_legacy_escapes(s: Seq<u8>, lo: int, hi: int, c: u8)
    requires
        0 <= lo <= hi <= s.len(),
    ensures
        s.subrange(lo, hi) == ascii(seq!['S', 'P']) ==> escape_of(s, lo, hi) == Some('@' as u8),
        s.subrange(lo, hi) == ascii(seq!['B', 'P']) ==> escape_of(s, lo, hi) == Some('*' as u8),
        s.subrange(lo, hi) == ascii(seq!['R', 'F']) ==> escape_of(s, lo, hi) == Some('&' as u8),
        s.subrange(lo, hi) == ascii(seq!['L', 'T']) ==> escape_of(s, lo, hi) == Some('<' as u8),
        s.subrange(lo, hi) == ascii(seq!['G', 'T']) ==> escape_of(s, lo, hi) == Some('>' as u8),
        s.subrange(lo, hi) == ascii(seq!['L', 'P']) ==> escape_of(s, lo, hi) == Some('(' as u8),
        s.subrange(lo, hi) == ascii(seq!['R', 'P']) ==> escape_of(s, lo, hi) == Some(')' as u8),
        s.subrange(lo, hi) == ascii(seq!['C']) ==> escape_of(s, lo, hi) == Some(',' as u8),
        c < 128 && s.subrange(lo, hi) == seq!['u' as u8, lower_hex_digit(c as int / 16), lower_hex_digit(c as int % 16)]
            ==> escape_of(s, lo, hi) == Some(c),
{
    assert(ascii(seq!['S', 'P']) =~= seq![83u8, 80u8]);
    assert(ascii(seq!['B', 'P']) =~= seq![66u8, 80u8]);
    assert(ascii(seq!['R', 'F']) =~= seq![82u8, 70u8]);
    assert(ascii(seq!['L', 'T']) =~= seq![76u8, 84u8]);
    assert(ascii(seq!['G', 'T']) =~= seq![71u8, 84u8]);
    assert(ascii(seq!['L', 'P']) =~= seq![76u8, 80u8]);
    assert(ascii(seq!['R', 'P']) =~= seq![82u8, 80u8]);
    assert(ascii(seq!['C']) =~= seq![67u8]);
    let e = s.subrange(lo, hi);
    if c < 128 && e == seq!['u' as u8, lower_hex_digit(c as int / 16), lower_hex_digit(c as int % 16)] {
        assert(e.len() == 3);
        assert(hi == lo + 3);
        assert(s[lo] == e[0]);
        assert(s[lo + 1] == e[1]);
        assert(s[lo + 2] == e[2]);
        assert(all_dig(s, lo + 1, hi, true));
        reveal_with_fuel(num, 3);
        assert(num(s, lo + 1, lo + 2, true) == dig_val(s[lo + 1], true));
        assert(num(s, lo + 1, hi, true) == (c as int / 16) * 16 + c as int % 16);
        assert(e != seq![83u8, 80u8] && e != seq![66u8, 80u8] && e != seq![82u8, 70u8]);
        assert(e != seq![76u8, 84u8] && e != seq![71u8, 84u8] && e != seq![76u8, 80u8]);
        assert(e != seq![82u8, 80u8] && e != seq![67u8]);
    }
}

/// What the name bytes `s[i..hi]` decode to: `..` becomes `::`, a lone
/// `.` becomes `-`, an escape becomes its byte, anything else stands
/// for itself. `None` when
/// an escape is unterminated or unknown.
pub open spec fn dec_at(s: Seq<u8>, i: int, hi: int) -> Option<Seq<u8>>
    decreases hi - i,
{
    if i >= hi {
        Some(Seq::empty())
    } else if s[i] == 36 {
        let j = next_dollar(s, i + 1, hi);
        if j >= hi {
            None
        } else {
            match escape_of(s, i + 1, j) {
                Some(c) => {
                    proof {
                        lemma_next_dollar(s, i + 1, hi);
                    }
                    cat(seq![c], dec_at(s, j + 1, hi))
                },
                None => None,
            }
        }
    } else if s[i] == 46 {
        if i + 1 < hi && s[i + 1] == 46 {
            cat(seq![58u8, 58u8], dec_at(s, i + 2, hi))
        } else {
            cat(seq![45u8], dec_at(s, i + 1, hi))
        }
    } else {
        cat(seq![s[i]], dec_at(s, i + 1, hi))
    }
}

/// What the name `s[lo..hi]` decodes to. A leading `_` in front of an
/// escape is only there to keep the name from starting with `$`, and is
/// dropped.
pub open spec fn seg_decoded(s: Seq<u8>, lo: int, hi: int) -> Option<Seq<u8>> {
    if hi - lo >= 2 && s[lo] == 95 && s[lo + 1] == 36 {
        dec_at(s, lo + 1, hi)
    } else {
        dec_at(s, lo, hi)
    }
}

/// Appends `c` at `*o` if there is room.
fn put(out: &mut [u8], o: &mut usize, c: u8) -> (ok: bool)
    requires
        *old(o) <= old(out)@.len(),
    ensures
        ok == (*old(o) < old(out)@.len()),
        ok ==> *final(o) == *old(o) + 1 && final(out)@ == old(out)@.update(*old(o) as int, c),
        !ok ==> *final(o) == *old(o) && final(out)@ == old(out)@,
{
    if *o >= out.len() {
        return false;
    }
    out[*o] = c;
    *o = *o + 1;
    true
}

/// Decodes the name `s[lo..hi]` into `out` from `*o` on, as
/// `seg_decoded` says; false when it cannot be decoded or does not fit.
fn decode_segment(s: &[u8], lo: usize, hi: usize, out: &mut [u8], o: &mut usize) -> (ok: bool)
    requires
        lo <= hi <= s@.len(),
        *old(o) <= old(out)@.len(),
    ensures
        final(out)@.len() == old(out)@.len(),
        final(out)@.subrange(0, *old(o) as int) == old(out)@.subrange(0, *old(o) as int),
        ok == fits(seg_decoded(s@, lo as int, hi as int), *old(o) as int, old(out)@.len() as int),
        ok ==> *final(o) == *old(o) + seg_decoded(s@, lo as int, hi as int)->0.len()
            && final(out)@.subrange(*old(o) as int, *final(o) as int) == seg_decoded(
            s@,
            lo as int,
            hi as int,
        )->0,
{
    let ghost o0: int = *o as int;
    let ghost out0: Seq<u8> = out@;
    let ghost cap: int = out@.len() as int;
    let mut i = lo;
    if hi - lo >= 2 && s[lo] == 95 && s[lo + 1] == 36 {
        i = lo + 1;
    }
    assert(out@.subrange(o0, *o as int) =~= Seq::<u8>::empty());
    assert(seg_decoded(s@, lo as int, hi as int) =~= cat(
        out@.subrange(o0, *o as int),
        dec_at(s@, i as int, hi as int),
    ));
    while i < hi
        invariant
            lo <= i <= hi <= s@.len(),
            o0 <= *o <= out@.len(),
            out@.len() == cap,
            cap == out0.len(),
            out0 == old(out)@,
            o0 == *old(o),
            out@.subrange(0, o0) == out0.subrange(0, o0),
            seg_decoded(s@, lo as int, hi as int) == cat(
                out@.subrange(o0, *o as int),
                dec_at(s@, i as int, hi as int),
            ),
        decreases hi - i,
    {
        let ghost before: Seq<u8> = out@.subrange(o0, *o as int);
        let ghost out_b: Seq<u8> = out@;
        let ghost ob: int = *o as int;
        if s[i] == 36 {
            let start = i + 1;
            let end = find_dollar(s, start, hi);
            if end >= hi {
                return false;
            }
            let c = match escape_byte(s, start, end) {
                Some(c) => c,
                None => {
                    return false;
                },
            };
            i = end + 1;
            if !put(out, o, c) {
                proof {
                    lemma_cat_overflow(before, seq![c], dec_at(s@, i as int, hi as int), o0, cap);
                }
                return false;
            }
            proof {
                assert(out@.subrange(0, ob) =~= out_b.subrange(0, ob));
                assert(out@.subrange(ob, ob + 1) =~= seq![c]);
                lemma_cat_step(out_b, out@, o0, ob, seq![c], out0, dec_at(s@, i as int, hi as int));
            }
        } else if s[i] == 46 {
            if i + 1 < hi && s[i + 1] == 46 {
                i = i + 2;
                if out.len() - *o < 2 {
                    proof {
                        lemma_cat_overflow(
                            before,
                            seq![58u8, 58u8],
                            dec_at(s@, i as int, hi as int),
                            o0,
                            cap,
                        );
                    }
                    return false;
                }
                put(out, o, 58);
                put(out, o, 58);
                proof {
                    assert(out@.subrange(0, ob) =~= out_b.subrange(0, ob));
                    assert(out@.subrange(ob, ob + 2) =~= seq![58u8, 58u8]);
                    lemma_cat_step(
                        out_b,
                        out@,
                        o0,
                        ob,
                        seq![58u8, 58u8],
                        out0,
                        dec_at(s@, i as int, hi as int),
                    );
                }
            } else {
                i = i + 1;
                if !put(out, o, 45) {
                    proof {
                        lemma_cat_overflow(
                            before,
                            seq![45u8],
                            dec_at(s@, i as int, hi as int),
                            o0,
                            cap,
                        );
                    }
                    return false;
                }
                proof {
                    assert(out@.subrange(0, ob) =~= out_b.subrange(0, ob));
                    assert(out@.subrange(ob, ob + 1) =~= seq![45u8]);
                    lemma_cat_step(
                        out_b,
                        out@,
                        o0,
                        ob,
                        seq![45u8],
                        out0,
                        dec_at(s@, i as int, hi as int),
                    );
                }
            }
        } else {
            let c = s[i];
            i = i + 1;
            if !put(out, o, c) {
                proof {
                    lemma_cat_overflow(before, seq![c], dec_at(s@, i as int, hi as int), o0, cap);
                }
                return false;
            }
            proof {
                assert(out@.subrange(0, ob) =~= out_b.subrange(0, ob));
                assert(out@.subrange(ob, ob + 1) =~= seq![c]);
                lemma_cat_step(out_b, out@, o0, ob, seq![c], out0, dec_at(s@, i as int, hi as int));
            }
        }
    }
    assert(seg_decoded(s@, lo as int, hi as int) =~= Some(out@.subrange(o0, *o as int)));
    true
}

/// The first `$` in `s[i..hi]`, or `hi`.
fn find_dollar(s: &[u8], i: usize, hi: usize) -> (r: usize)
    requires
        i <= hi <= s@.len(),
    ensures
        r == next_dollar(s@, i as int, hi as int),
        i <= r <= hi,
{
    proof {
        lemma_next_dollar(s@, i as int, hi as int);
    }
    let mut end = i;
    while end < hi && s[end] != 36
        invariant
            i <= end <= next_dollar(s@, i as int, hi as int) <= hi <= s@.len(),
            next_dollar(s@, i as int, hi as int) < hi ==> s@[next_dollar(
                s@,
                i as int,
                hi as int,
            )] == 36,
            forall|k: int| i <= k < next_dollar(s@, i as int, hi as int) ==> s@[k] != 36,
        decreases hi - end,
    {
        end = end + 1;
    }
    end
}

/// The byte that the escape `$s[lo..hi]$` stands for, as `escape_of`
/// says.
fn escape_byte(s: &[u8], lo: usize, hi: usize) -> (r: Option<u8>)
    requires
        lo <= hi <= s@.len(),
    ensures
        r == escape_of(s@, lo as int, hi as int),
{
    let ghost e = s@.subrange(lo as int, hi as int);
    if hi - lo == 2 {
        let a = s[lo];
        let b = s[lo + 1];
        assert(e == seq![a, b]);
        if a == 83 && b == 80 {
            return Some(64);
        } else if a == 66 && b == 80 {
            return Some(42);
        } else if a == 82 && b == 70 {
            return Some(38);
        } else if a == 76 && b == 84 {
            return Some(60);
        } else if a == 71 && b == 84 {
            return Some(62);
        } else if a == 76 && b == 80 {
            return Some(40);
        } else if a == 82 && b == 80 {
            return Some(41);
        }
    }
    if hi - lo == 1 && s[lo] == 67 {
        assert(e == seq![67u8]);
        return Some(44);
    }
    assert(e != seq![83u8, 80u8] && e != seq![66u8, 80u8] && e != seq![82u8, 70u8] && e != seq![
        76u8,
        84u8,
    ] && e != seq![71u8, 84u8] && e != seq![76u8, 80u8] && e != seq![82u8, 80u8] && e != seq![
        67u8,
    ]) by {
        if e.len() == 2 {
            assert(e[0] == s@[lo as int] && e[1] == s@[lo + 1]);
        }
        if e.len() == 1 {
            assert(e[0] == s@[lo as int]);
        }
    }
    if hi - lo >= 2 && s[lo] == 117 {
        match parse_hex(s, lo + 1, hi) {
            Some(cp) => {
                if cp <= 0x7f {
                    return Some(cp as u8);
                }
                return None;
            },
            None => {
                return None;
            },
        }
    }
    None
}

/// When appending `p` does not fit, the whole output does not fit.
proof fn lemma_cat_overflow(before: Seq<u8>, p: Seq<u8>, rest: Option<Seq<u8>>, o0: int, cap: int)
    requires
        o0 + before.len() + p.len() > cap,
    ensures
        !fits(cat(before, cat(p, rest)), o0, cap),
{
}

/// One step of the decoding loop: what was appended joins the prefix.
proof fn lemma_cat_step(
    out_b: Seq<u8>,
    out_a: Seq<u8>,
    o0: int,
    ob: int,
    p: Seq<u8>,
    out0: Seq<u8>,
    rest: Option<Seq<u8>>,
)
    requires
        0 <= o0 <= ob,
        ob + p.len() <= out_a.len(),
        out_a.len() == out_b.len(),
        out_a.subrange(0, ob) == out_b.subrange(0, ob),
        out_a.subrange(ob, ob + p.len()) == p,
        out_b.subrange(0, o0) == out0.subrange(0, o0),
    ensures
        out_a.subrange(0, o0) == out0.subrange(0, o0),
        cat(out_b.subrange(o0, ob), cat(p, rest)) == cat(out_a.subrange(o0, ob + p.len()), rest),
{
    assert(out_a.subrange(0, o0) =~= out_a.subrange(0, ob).subrange(0, o0));
    assert(out_b.subrange(0, o0) =~= out_b.subrange(0, ob).subrange(0, o0));
    assert(out_a.subrange(o0, ob) =~= out_a.subrange(0, ob).subrange(o0, ob));
    assert(out_b.subrange(o0, ob) =~= out_b.subrange(0, ob).subrange(o0, ob));
    assert(out_a.subrange(o0, ob + p.len()) =~= out_a.subrange(o0, ob) + out_a.subrange(
        ob,
        ob + p.len(),
    ));
    match rest {
        Some(t) => {
            assert(out_b.subrange(o0, ob) + (p + t) =~= out_a.subrange(o0, ob + p.len()) + t);
        },
        None => {},
    }
}


pub proof fn lemma_digits_end_ge(s: Seq<u8>, i: int)
    ensures
        digits_end(s, i) >= i,
    decreases s.len() - i,
{
    if 0 <= i < s.len() && is_dig(s[i], false) {
        lemma_digits_end_ge(s, i + 1);
    }
}

/// The names of a legacy symbol from offset `i` on, up to the closing `E`
/// at `end`, joined with `::`; the hash segment that ends the symbol is
/// dropped. `first` says that no name came before.
pub open spec fn names_at(s: Seq<u8>, i: int, end: int, first: bool) -> Option<Seq<u8>>
    decreases end - i,
{
    if i >= end {
        Some(Seq::empty())
    } else {
        match decimal_at(s, i) {
            None => None,
            Some((n, j)) => {
                if j + n > end {
                    None
                } else if j + n == end && n == HASH_LEN && s[j] == 104 {
                    Some(Seq::empty())
                } else {
                    let sep: Seq<u8> = if first {
                        Seq::empty()
                    } else {
                        seq![58u8, 58u8]
                    };
                    proof {
                        lemma_digits_end_ge(s, i);
                        lemma_num_nonneg(s, i, j, false);
                    }
                    match seg_decoded(s, j, j + n) {
                        Some(d) => cat(sep + d, names_at(s, j + n, end, false)),
                        None => None,
                    }
                }
            },
        }
    }
}

/// What the legacy symbol `s` demangles to: `None` when `s` is not
/// `_ZN...E` or one of its names cannot be read.
pub open spec fn legacy_demangled(s: Seq<u8>) -> Option<Seq<u8>> {
    if s.len() < 5 || s[0] != 95 || s[1] != 90 || s[2] != 78 || s[s.len() - 1] != 69 {
        None
    } else {
        names_at(s, 3, s.len() - 1, true)
    }
}

/// How the bytes of a legacy name decode, one step at a time: `..` is
/// `::`, a lone `.` is `-`, `$e$` is the byte of the escape `e`, and any
/// other byte stands for itself.
pub proof fn lemma_name_decoding(s: Seq<u8>, i: int, hi: int)
    requires
        0 <= i < hi <= s.len(),
    ensures
        i + 1 < hi && s[i] == '.' as u8 && s[i + 1] == '.' as u8 ==> dec_at(s, i, hi) == cat(
            ascii(seq![':', ':']),
            dec_at(s, i + 2, hi),
        ),
        s[i] == '.' as u8 && (i + 1 == hi || s[i + 1] != '.' as u8) ==> dec_at(s, i, hi) == cat(
            ascii(seq!['-']),
            dec_at(s, i + 1, hi),
        ),
        s[i] != '.' as u8 && s[i] != '$' as u8 ==> dec_at(s, i, hi) == cat(seq![s[i]], dec_at(s, i + 1, hi)),
        forall|j: int|
            i < j < hi && s[i] == '$' as u8 && s[j] == '$' as u8 && (forall|m: int| i < m < j ==> #[trigger] s[m] != '$' as u8)
                && escape_of(s, i + 1, j) is Some ==> dec_at(s, i, hi) == cat(
                seq![escape_of(s, i + 1, j)->0],
                dec_at(s, j + 1, hi),
            ),
{
    assert(ascii(seq![':', ':']) =~= seq![58u8, 58u8]);
    assert(ascii(seq!['-']) =~= seq![45u8]);
    assert forall|j: int|
        i < j < hi && s[i] == '$' as u8 && s[j] == '$' as u8 && (forall|m: int| i < m < j ==> #[trigger] s[m] != '$' as u8)
            && escape_of(s, i + 1, j) is Some implies dec_at(s, i, hi) == cat(
        seq![escape_of(s, i + 1, j)->0],
        dec_at(s, j + 1, hi),
    ) by {
        lemma_next_dollar_at(s, i + 1, j, hi);
    }
}

/// The next `$` found from `k` is the first one.
proof fn lemma_next_dollar_at(s: Seq<u8>, k: int, j: int, hi: int)
    requires
        k <= j < hi,
        j < s.len(),
        0 <= k,
        s[j] == 36,
        forall|m: int| k <= m < j ==> #[trigger] s[m] != 36,
    ensures
        next_dollar(s, k, hi) == j,
    decreases j - k,
{
    if k < j {
        lemma_next_dollar_at(s, k + 1, j, hi);
    }
}

/// `n` in decimal digits.
pub open spec fn decimal_digits(n: nat) -> Seq<u8>
    decreases n,
{
    if n < 10 {
        seq![('0' as int + n) as u8]
    } else {
        decimal_digits(n / 10).push(('0' as int + n % 10) as u8)
    }
}

/// A name as a legacy symbol can carry it plainly: not empty, not
/// starting with a digit, and holding no `$` and no `.`.
pub open spec fn plain_name(n: Seq<u8>) -> bool {
    &&& n.len() > 0
    &&& !('0' as u8 <= n[0] <= '9' as u8)
    &&& forall|k: int| 0 <= k < n.len() ==> #[trigger] n[k] != '$' as u8 && n[k] != '.' as u8
}

/// The names as a legacy symbol lists them: each one's length in
/// decimal, then the name.
pub open spec fn legacy_names(names: Seq<Seq<u8>>) -> Seq<u8>
    decreases names.len(),
{
    if names.len() == 0 {
        Seq::empty()
    } else {
        decimal_digits(names[0].len()) + names[0] + legacy_names(names.drop_first())
    }
}

/// A legacy symbol: `_ZN`, the names, the 17-byte hash segment
/// `h` + `hash`, and `E`.
pub open spec fn legacy_symbol(names: Seq<Seq<u8>>, hash: Seq<u8>) -> Seq<u8> {
    ascii(seq!['_', 'Z', 'N']) + legacy_names(names) + ascii(seq!['1', '7', 'h']) + hash + ascii(seq!['E'])
}

/// The names joined with `::`, a `::` in front too unless `first`.
pub open spec fn path_text(names: Seq<Seq<u8>>, first: bool) -> Seq<u8>
    decreases names.len(),
{
    if names.len() == 0 {
        Seq::empty()
    } else {
        (if first {
            Seq::empty()
        } else {
            ascii(seq![':', ':'])
        }) + names[0] + path_text(names.drop_first(), false)
    }
}

pub proof fn lemma_decimal_digits(n: nat)
    ensures
        decimal_digits(n).len() >= 1,
        forall|k: int| 0 <= k < decimal_digits(n).len() ==> is_dig(#[trigger] decimal_digits(n)[k], false),
    decreases n,
{
    if n >= 10 {
        lemma_decimal_digits(n / 10);
    }
}

pub proof fn lemma_decimal_num(s: Seq<u8>, i: int, n: nat)
    requires
        0 <= i,
        i + decimal_digits(n).len() <= s.len(),
        s.subrange(i, i + decimal_digits(n).len()) == decimal_digits(n),
    ensures
        num(s, i, i + decimal_digits(n).len(), false) == n,
    decreases n,
{
    let d = decimal_digits(n);
    let e = i + d.len();
    if n < 10 {
        assert(s[i] == d[0]);
        assert(num(s, i, i, false) == 0);
    } else {
        let p = decimal_digits(n / 10);
        lemma_decimal_digits(n / 10);
        assert(s.subrange(i, i + p.len()) =~= p) by {
            assert forall|k: int| 0 <= k < p.len() implies s.subrange(i, i + p.len())[k] == p[k] by {
                assert(s[i + k] == d[k]);
            }
        }
        lemma_decimal_num(s, i, n / 10);
        assert(s[e - 1] == d[d.len() - 1]);
        assert(n == (n / 10) * 10 + n % 10);
    }
}

proof fn lemma_digits_end_at(s: Seq<u8>, k: int, e: int)
    requires
        0 <= k <= e <= s.len(),
        forall|m: int| k <= m < e ==> is_dig(#[trigger] s[m], false),
        e == s.len() || !is_dig(s[e], false),
    ensures
        digits_end(s, k) == e,
    decreases e - k,
{
    if k < e {
        lemma_digits_end_at(s, k + 1, e);
    }
}

/// A length in decimal followed by a non-digit reads back as that length.
proof fn lemma_decimal_at(s: Seq<u8>, i: int, n: nat)
    requires
        0 <= i,
        i + decimal_digits(n).len() < s.len(),
        s.subrange(i, i + decimal_digits(n).len()) == decimal_digits(n),
        !is_dig(s[i + decimal_digits(n).len()], false),
        n <= usize::MAX,
    ensures
        decimal_at(s, i) == Some((n as int, i + decimal_digits(n).len())),
{
    let d = decimal_digits(n);
    lemma_decimal_digits(n);
    assert forall|m: int| i <= m < i + d.len() implies is_dig(#[trigger] s[m], false) by {
        assert(s[m] == d[m - i]);
    }
    lemma_digits_end_at(s, i, i + d.len());
    lemma_decimal_num(s, i, n);
}

/// Bytes holding no `$` and no `.` decode to themselves.
proof fn lemma_plain_decodes(s: Seq<u8>, lo: int, hi: int)
    requires
        0 <= lo <= hi <= s.len(),
        forall|k: int| lo <= k < hi ==> #[trigger] s[k] != 36 && s[k] != 46,
    ensures
        dec_at(s, lo, hi) == Some(s.subrange(lo, hi)),
    decreases hi - lo,
{
    if lo < hi {
        lemma_plain_decodes(s, lo + 1, hi);
        assert(seq![s[lo]] + s.subrange(lo + 1, hi) =~= s.subrange(lo, hi));
    } else {
        assert(s.subrange(lo, hi) =~= Seq::<u8>::empty());
    }
}

proof fn lemma_names_at_plain(s: Seq<u8>, i: int, end: int, names: Seq<Seq<u8>>, first: bool)
    requires
        0 <= i <= end < s.len(),
        s.subrange(i, end) == legacy_names(names) + ascii(seq!['1', '7', 'h']) + s.subrange(end - 16, end),
        end - i == legacy_names(names).len() + 19,
        forall|k: int| 0 <= k < names.len() ==> #[trigger] plain_name(names[k]) && names[k].len() <= usize::MAX,
    ensures
        names_at(s, i, end, first) == Some(path_text(names, first)),
    decreases names.len(),
{
    let t = ascii(seq!['1', '7', 'h']);
    assert(t =~= seq![49u8, 55u8, 104u8]);
    if names.len() == 0 {
        assert(legacy_names(names) =~= Seq::<u8>::empty());
        assert(decimal_digits(17) =~= seq![49u8, 55u8]) by {
            reveal_with_fuel(decimal_digits, 2);
        }
        assert(s.subrange(i, i + 2) =~= decimal_digits(17)) by {
            assert(s[i] == s.subrange(i, end)[0]);
            assert(s[i + 1] == s.subrange(i, end)[1]);
        }
        assert(s[i + 2] == s.subrange(i, end)[2]);
        lemma_decimal_at(s, i, 17);
    } else {
        let nm = names[0];
        let d = decimal_digits(nm.len());
        let rest = names.drop_first();
        lemma_decimal_digits(nm.len());
        assert(plain_name(nm));
        let body = legacy_names(names) + t + s.subrange(end - 16, end);
        assert(legacy_names(names) == d + nm + legacy_names(rest));
        assert(s.subrange(i, i + d.len()) =~= d) by {
            assert forall|k: int| 0 <= k < d.len() implies s.subrange(i, i + d.len())[k] == d[k] by {
                assert(s[i + k] == s.subrange(i, end)[k]);
                assert(body[k] == d[k]);
            }
        }
        let j = i + d.len();
        assert(s[j] == nm[0]) by {
            assert(s[j] == s.subrange(i, end)[d.len() as int]);
            assert(body[d.len() as int] == nm[0]);
        }
        lemma_decimal_at(s, i, nm.len());
        let e = j + nm.len();
        assert(s.subrange(j, e) =~= nm) by {
            assert forall|k: int| 0 <= k < nm.len() implies s.subrange(j, e)[k] == nm[k] by {
                assert(s[j + k] == s.subrange(i, end)[d.len() + k]);
                assert(body[d.len() + k] == nm[k]);
            }
        }
        assert forall|k: int| j <= k < e implies #[trigger] s[k] != 36 && s[k] != 46 by {
            assert(s[k] == nm[k - j]);
        }
        lemma_plain_decodes(s, j, e);
        if nm.len() >= 2 {
            assert(s[j + 1] == nm[1]);
        }
        assert(seg_decoded(s, j, e) == Some(nm));
        assert(s.subrange(e, end) =~= legacy_names(rest) + t + s.subrange(end - 16, end)) by {
            assert forall|k: int| 0 <= k < end - e implies s.subrange(e, end)[k] == (legacy_names(rest) + t + s.subrange(end - 16, end))[k] by {
                assert(s[e + k] == s.subrange(i, end)[d.len() + nm.len() + k]);
                assert(body[d.len() + nm.len() + k] == (legacy_names(rest) + t + s.subrange(end - 16, end))[k]);
            }
        }
        lemma_names_at_plain(s, e, end, rest, false);
        lemma_digits_end_ge(s, i);
        lemma_num_nonneg(s, i, j, false);
        let sep: Seq<u8> = if first { Seq::empty() } else { seq![58u8, 58u8] };
        assert(ascii(seq![':', ':']) =~= seq![58u8, 58u8]);
        assert(sep + nm + path_text(rest, false) =~= path_text(names, first));
    }
}

/// A legacy symbol whose names are plain demangles to its names joined
/// with `::`, the hash segment dropped: `_ZN3foo3bar17h…E` is `foo::bar`.
pub proof fn lemma_legacy_plain_path(names: Seq<Seq<u8>>, hash: Seq<u8>)
    requires
        hash.len() == 16,
        forall|k: int| 0 <= k < names.len() ==> #[trigger] plain_name(names[k]) && names[k].len() <= usize::MAX,
    ensures
        legacy_demangled(legacy_symbol(names, hash)) == Some(path_text(names, true)),
{
    let s = legacy_symbol(names, hash);
    let body = legacy_names(names);
    assert(ascii(seq!['_', 'Z', 'N']) =~= seq![95u8, 90u8, 78u8]);
    assert(ascii(seq!['E']) =~= seq![69u8]);
    let end = s.len() - 1;
    assert(s[0] == 95 && s[1] == 90 && s[2] == 78 && s[end] == 69);
    assert(s.subrange(end - 16, end) =~= hash);
    assert(s.subrange(3, end) =~= body + ascii(seq!['1', '7', 'h']) + s.subrange(end - 16, end));
    lemma_names_at_plain(s, 3, end, names, true);
}

proof fn lemma_cat_assoc(a: Seq<u8>, b: Seq<u8>, r: Option<Seq<u8>>)
    ensures
        cat(a, cat(b, r)) == cat(a + b, r),
{
    match r {
        Some(t) => {
            assert(a + (b + t) =~= (a + b) + t);
        },
        None => {},
    }
}

proof fn lemma_cat_long(a: Seq<u8>, r: Option<Seq<u8>>, cap: int)
    requires
        a.len() > cap,
    ensures
        !fits(cat(a, r), 0, cap),
{
}

/// Demangles the legacy symbol `sym` into `out`, as `legacy_demangled`
/// says. Returns the number of bytes written, or 0 when `sym` is not a
/// legacy symbol this understands or its name does not fit in `out`.
pub fn demangle(sym: &[u8], out: &mut [u8]) -> (r: usize)
    ensures
        final(out)@.len() == old(out)@.len(),
        r == (if fits(legacy_demangled(sym@), 0, old(out)@.len() as int) {
            legacy_demangled(sym@)->0.len()
        } else {
            0
        }),
        fits(legacy_demangled(sym@), 0, old(out)@.len() as int) ==> final(out)@.subrange(0, r as int)
            == legacy_demangled(sym@)->0,
{
    let ghost cap: int = out@.len() as int;
    if sym.len() < 5 || sym[0] != 95 || sym[1] != 90 || sym[2] != 78 || sym[sym.len() - 1] != 69 {
        return 0;
    }
    let end = sym.len() - 1;
    let mut i: usize = 3;
    let mut o: usize = 0;
    let mut first = true;
    assert(out@.subrange(0, 0) =~= Seq::<u8>::empty());
    assert(cat(Seq::<u8>::empty(), names_at(sym@, 3, end as int, true)) =~= names_at(
        sym@,
        3,
        end as int,
        true,
    ));
    while i < end
        invariant
            3 <= i <= end,
            end == sym@.len() - 1,
            sym@[end as int] == 69,
            o <= out@.len(),
            out@.len() == cap,
            cap == old(out)@.len(),
            legacy_demangled(sym@) == cat(
                out@.subrange(0, o as int),
                names_at(sym@, i as int, end as int, first),
            ),
        decreases end - i,
    {
        let ghost before: Seq<u8> = out@.subrange(0, o as int);
        proof {
            lemma_digits_end(sym@, i as int);
        }
        let (len, after) = match read_decimal(sym, i) {
            Some(v) => v,
            None => {
                return 0;
            },
        };
        assert(after <= end) by {
            if after > end {
                assert(is_dig(sym@[end as int], false));
            }
        }
        if len > end - after {
            return 0;
        }
        let seg_hi = after + len;
        i = seg_hi;
        if i == end && len == HASH_LEN && sym[after] == 104 {
            assert(before + Seq::<u8>::empty() =~= before);
            return o;
        }
        let ghost sep: Seq<u8> = if first {
            Seq::empty()
        } else {
            seq![58u8, 58u8]
        };
        let ghost rest = names_at(sym@, i as int, end as int, false);
        proof {
            lemma_cat_assoc(before, sep, cat(seg_decoded(sym@, after as int, seg_hi as int)->0, rest));
        }
        if !first {
            if out.len() - o < 2 {
                proof {
                    match seg_decoded(sym@, after as int, seg_hi as int) {
                        Some(d) => {
                            lemma_cat_assoc(before + sep, d, rest);
                            lemma_cat_long(before + sep + d, rest, cap);
                        },
                        None => {},
                    }
                }
                return 0;
            }
            let ghost out_b = out@;
            put(out, &mut o, 58);
            put(out, &mut o, 58);
            assert(out@.subrange(0, o as int) =~= before + sep) by {
                assert(out@.subrange(0, o - 2) =~= out_b.subrange(0, o - 2));
            }
        } else {
            assert(before + sep =~= before);
        }
        first = false;
        let ghost o_mid: int = o as int;
        let ghost mid: Seq<u8> = out@.subrange(0, o as int);
        if !decode_segment(sym, after, seg_hi, out, &mut o) {
            proof {
                match seg_decoded(sym@, after as int, seg_hi as int) {
                    Some(d) => {
                        lemma_cat_assoc(mid, d, rest);
                        lemma_cat_long(mid + d, rest, cap);
                    },
                    None => {},
                }
            }
            return 0;
        }
        proof {
            let d = seg_decoded(sym@, after as int, seg_hi as int)->0;
            assert(out@.subrange(0, o as int) =~= mid + d) by {
                assert(out@.subrange(0, o_mid) =~= mid);
            }
            lemma_cat_assoc(mid, d, rest);
        }
    }
    assert(out@.subrange(0, o as int) + Seq::<u8>::empty() =~= out@.subrange(0, o as int));
    o
}

} // verus!
