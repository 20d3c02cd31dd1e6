//! What v0 symbols of a few common shapes demangle to: a function in a
//! crate, `crate::name`, and a function specialised for a basic type,
//! `crate::name::<T>`.
use vstd::prelude::*;
use crate::runtime::symbolize::demangle::{
    all_dig, decimal_digits, is_dig, lemma_decimal_digits, lemma_decimal_num, lemma_num_mono, num,
};
use crate::runtime::symbolize::v0_spec::{
    advanced, args, ascii, at, dec_loop, decimal, eat, emit, generic_arg, ident, lemma_basic_type_names, path, peek, prim, putc,
    ref_lifetime, ty, v0_demangled, Ctx, MAX_DEPTH, VS,
};

verus! {

/// An identifier as a v0 symbol carries it: its length in decimal, then
/// its bytes.
pub open spec fn v0_ident(name: Seq<u8>) -> Seq<u8> {
    decimal_digits(name.len()) + name
}

/// A name that a v0 identifier carries as it is: not empty, not starting
/// with a digit or `_`.
pub open spec fn v0_name_ok(name: Seq<u8>) -> bool {
    &&& name.len() > 0
    &&& !('0' as u8 <= name[0] <= '9' as u8)
    &&& name[0] != '_' as u8
    &&& name.len() <= usize::MAX
}

/// Printing bytes that fit appends them.
proof fn lemma_emit(c: Ctx, st: VS, s: Seq<u8>)
    requires
        !st.bad,
        c.cap == 0 || st.text.len() + s.len() <= c.cap,
    ensures
        emit(c, st, s).pos == st.pos,
        !emit(c, st, s).bad,
        emit(c, st, s).text == st.text + s,
    decreases s.len(),
{
    if s.len() > 0 {
        let st1 = putc(c, st, s[0]);
        assert(st1.text == st.text.push(s[0]));
        lemma_emit(c, st1, s.drop_first());
        assert(st.text.push(s[0]) + s.drop_first() =~= st.text + s);
    } else {
        assert(st.text + s =~= st.text);
    }
}

/// The rest of a decimal number, read left to right.
proof fn lemma_dec_loop(sym: Seq<u8>, st: VS, p: int, q: int, e: int)
    requires
        !st.bad,
        st.pos == q,
        0 <= p < q <= e < sym.len(),
        all_dig(sym, p, e, false),
        !is_dig(sym[e], false),
        num(sym, p, e, false) <= usize::MAX,
    ensures
        dec_loop(sym, st, num(sym, p, q, false)) == (at(st, e), num(sym, p, e, false)),
    decreases e - q,
{
    if q < e {
        lemma_num_mono(sym, p, q + 1, e, false);
        assert(is_dig(sym[q], false));
        assert(num(sym, p, q + 1, false) == num(sym, p, q, false) * 10 + (sym[q] - 48));
        lemma_dec_loop(sym, at(st, q + 1), p, q + 1, e);
    }
}

/// The first digit of a positive number is not `0`.
proof fn lemma_first_digit(n: nat)
    requires
        n >= 1,
    ensures
        decimal_digits(n)[0] != 48,
    decreases n,
{
    if n >= 10 {
        lemma_first_digit(n / 10);
        lemma_decimal_digits(n / 10);
    }
}

/// A positive decimal length followed by a non-digit reads back.
proof fn lemma_decimal(sym: Seq<u8>, st: VS, n: nat)
    requires
        !st.bad,
        n >= 1,
        n <= usize::MAX,
        0 <= st.pos,
        st.pos + decimal_digits(n).len() < sym.len(),
        sym.subrange(st.pos, st.pos + decimal_digits(n).len()) == decimal_digits(n),
        !is_dig(sym[st.pos + decimal_digits(n).len()], false),
    ensures
        decimal(sym, st) == (at(st, st.pos + decimal_digits(n).len()), n as int),
{
    let q = st.pos;
    let d = decimal_digits(n);
    let e = q + d.len();
    lemma_decimal_digits(n);
    lemma_first_digit(n);
    assert forall|k: int| q <= k < e implies #[trigger] is_dig(sym[k], false) by {
        assert(sym[k] == d[k - q]);
    }
    assert(sym[q] == d[0]);
    lemma_decimal_num(sym, q, n);
    assert(num(sym, q, q + 1, false) == sym[q] - 48) by {
        assert(num(sym, q, q, false) == 0);
    }
    lemma_dec_loop(sym, at(st, q + 1), q, q + 1, e);
}

/// An identifier whose name is carried as it is prints that name.
proof fn lemma_ident(c: Ctx, st: VS, name: Seq<u8>)
    requires
        !st.bad,
        v0_name_ok(name),
        0 <= st.pos,
        st.pos + v0_ident(name).len() <= c.sym.len(),
        c.sym.subrange(st.pos, st.pos + v0_ident(name).len()) == v0_ident(name),
        c.cap == 0 || st.text.len() + name.len() <= c.cap,
    ensures
        ident(c, st, true).pos == st.pos + v0_ident(name).len(),
        !ident(c, st, true).bad,
        ident(c, st, true).text == st.text + name,
{
    let q = st.pos;
    let d = decimal_digits(name.len());
    let L = d.len();
    lemma_decimal_digits(name.len());
    assert(c.sym.subrange(q, q + L) =~= d) by {
        assert forall|k: int| 0 <= k < L implies c.sym.subrange(q, q + L)[k] == d[k] by {
            assert(c.sym[q + k] == v0_ident(name)[k]);
        }
    }
    assert(c.sym[q + L] == name[0]) by {
        assert(c.sym[q + L] == v0_ident(name)[L as int]);
    }
    assert(c.sym[q] == d[0]) by {
        assert(c.sym[q] == v0_ident(name)[0]);
    }
    assert(peek(c.sym, st) != 117);
    lemma_decimal(c.sym, st, name.len());
    assert(c.sym.subrange(q + L, q + L + name.len()) =~= name) by {
        assert forall|k: int| 0 <= k < name.len() implies c.sym.subrange(q + L, q + L + name.len())[k] == name[k] by {
            assert(c.sym[q + L + k] == v0_ident(name)[L + k]);
        }
    }
    lemma_emit(c, at(st, q + L + name.len()), name);
}

/// A crate root `C<ident>` prints the crate's name.
proof fn lemma_crate_root(c: Ctx, st: VS, depth: int, bound: int, iv: bool, k: Seq<u8>)
    requires
        !st.bad,
        0 <= depth < MAX_DEPTH,
        v0_name_ok(k),
        0 <= st.pos,
        st.pos + 1 + v0_ident(k).len() <= c.sym.len(),
        c.sym[st.pos] == 'C' as u8,
        c.sym.subrange(st.pos + 1, st.pos + 1 + v0_ident(k).len()) == v0_ident(k),
        c.cap == 0 || st.text.len() + k.len() <= c.cap,
    ensures
        path(c, st, depth, bound, iv).pos == st.pos + 1 + v0_ident(k).len(),
        !path(c, st, depth, bound, iv).bad,
        path(c, st, depth, bound, iv).text == st.text + k,
{
    let st1 = at(st, st.pos + 1);
    lemma_decimal_digits(k.len());
    assert(c.sym[st.pos + 1] == v0_ident(k)[0]);
    assert(peek(c.sym, st1) != 115);
    lemma_ident(c, st1, k);
}

/// A value name in a crate, `NvC<crate><name>`, prints `crate::name`.
proof fn lemma_value_path(c: Ctx, st: VS, depth: int, bound: int, iv: bool, k: Seq<u8>, f: Seq<u8>)
    requires
        !st.bad,
        0 <= depth < MAX_DEPTH - 1,
        v0_name_ok(k),
        v0_name_ok(f),
        0 <= st.pos,
        st.pos + 3 + v0_ident(k).len() + v0_ident(f).len() <= c.sym.len(),
        c.sym.subrange(st.pos, st.pos + 3 + v0_ident(k).len() + v0_ident(f).len()) == ascii(seq!['N', 'v', 'C'])
            + v0_ident(k) + v0_ident(f),
        c.cap == 0 || st.text.len() + k.len() + 2 + f.len() <= c.cap,
    ensures
        path(c, st, depth, bound, iv).pos == st.pos + 3 + v0_ident(k).len() + v0_ident(f).len(),
        !path(c, st, depth, bound, iv).bad,
        path(c, st, depth, bound, iv).text == st.text + k + ascii(seq![':', ':']) + f,
{
    let q = st.pos;
    let w = ascii(seq!['N', 'v', 'C']) + v0_ident(k) + v0_ident(f);
    assert(ascii(seq!['N', 'v', 'C']) =~= seq![78u8, 118u8, 67u8]);
    assert(ascii(seq![':', ':']) =~= seq![58u8, 58u8]);
    let a = q + 3 + v0_ident(k).len();
    assert(c.sym[q] == w[0] && c.sym[q + 1] == w[1] && c.sym[q + 2] == w[2]);
    assert(c.sym.subrange(q + 3, a) =~= v0_ident(k)) by {
        assert forall|i: int| 0 <= i < v0_ident(k).len() implies c.sym.subrange(q + 3, a)[i] == v0_ident(k)[i] by {
            assert(c.sym[q + 3 + i] == w[3 + i]);
        }
    }
    assert(c.sym.subrange(a, a + v0_ident(f).len()) =~= v0_ident(f)) by {
        assert forall|i: int| 0 <= i < v0_ident(f).len() implies c.sym.subrange(a, a + v0_ident(f).len())[i] == v0_ident(f)[i] by {
            assert(c.sym[a + i] == w[3 + v0_ident(k).len() + i]);
        }
    }
    let st2 = at(st, q + 2);
    lemma_crate_root(c, st2, depth + 1, bound, iv, k);
    let st3 = path(c, st2, depth + 1, bound, iv);
    lemma_decimal_digits(f.len());
    assert(c.sym[a] == v0_ident(f)[0]);
    assert(peek(c.sym, st3) != 115);
    lemma_emit(c, st3, seq![58u8, 58u8]);
    let st5 = emit(c, st3, seq![58u8, 58u8]);
    lemma_ident(c, st5, f);
    assert(st.text + k + seq![58u8, 58u8] + f =~= (st.text + k + seq![58u8, 58u8]) + f);
}

/// What `v0_demangled` gives for a value in a crate: `_RNvC<crate><name>`
/// demangles to `crate::name` (when that fits in `cap`, 0 meaning no
/// bound).
pub proof fn lemma_v0_crate_function(k: Seq<u8>, f: Seq<u8>, cap: int)
    requires
        v0_name_ok(k),
        v0_name_ok(f),
        cap >= 0,
        cap == 0 || k.len() + 2 + f.len() <= cap,
    ensures
        v0_demangled(ascii(seq!['_', 'R', 'N', 'v', 'C']) + v0_ident(k) + v0_ident(f), cap) == Some(
            k + ascii(seq![':', ':']) + f,
        ),
{
    let sym = ascii(seq!['_', 'R', 'N', 'v', 'C']) + v0_ident(k) + v0_ident(f);
    assert(ascii(seq!['_', 'R', 'N', 'v', 'C']) =~= seq![95u8, 82u8, 78u8, 118u8, 67u8]);
    assert(ascii(seq!['N', 'v', 'C']) =~= seq![78u8, 118u8, 67u8]);
    assert(sym[0] == 95 && sym[1] == 82 && sym[2] == 78);
    let c = Ctx { sym, base: 2, cap };
    let st = VS { pos: 2, text: Seq::empty(), bad: false };
    assert(sym.subrange(2, sym.len() as int) =~= ascii(seq!['N', 'v', 'C']) + v0_ident(k) + v0_ident(f));
    lemma_value_path(c, st, 0, 0, true, k, f);
    assert(Seq::<u8>::empty() + k + ascii(seq![':', ':']) + f =~= k + ascii(seq![':', ':']) + f);
}

/// What `v0_demangled` gives for a function specialised for one basic
/// type: `_RINvC<crate><name><T>E` demangles to `crate::name::<T>`, the
/// type printed by its name (when that fits in `cap`, 0 meaning no
/// bound).
pub proof fn lemma_v0_generic_function(k: Seq<u8>, f: Seq<u8>, t: u8, cap: int)
    requires
        v0_name_ok(k),
        v0_name_ok(f),
        prim(t) is Some,
        cap >= 0,
        cap == 0 || k.len() + 6 + f.len() + prim(t)->0.len() <= cap,
    ensures
        v0_demangled(ascii(seq!['_', 'R', 'I', 'N', 'v', 'C']) + v0_ident(k) + v0_ident(f) + seq![t] + ascii(seq!['E']), cap)
            == Some(k + ascii(seq![':', ':']) + f + ascii(seq![':', ':', '<']) + prim(t)->0 + ascii(seq!['>'])),
{
    let sym = ascii(seq!['_', 'R', 'I', 'N', 'v', 'C']) + v0_ident(k) + v0_ident(f) + seq![t] + ascii(seq!['E']);
    assert(ascii(seq!['_', 'R', 'I', 'N', 'v', 'C']) =~= seq![95u8, 82u8, 73u8, 78u8, 118u8, 67u8]);
    assert(ascii(seq!['N', 'v', 'C']) =~= seq![78u8, 118u8, 67u8]);
    assert(ascii(seq!['E']) =~= seq![69u8]);
    assert(ascii(seq![':', ':']) =~= seq![58u8, 58u8]);
    assert(ascii(seq![':', ':', '<']) =~= seq![58u8, 58u8, 60u8]);
    assert(ascii(seq!['>']) =~= seq![62u8]);
    lemma_basic_type_names();
    assert(t != 76 && t != 75 && t != 69);
    let c = Ctx { sym, base: 2, cap };
    let st = VS { pos: 2, text: Seq::empty(), bad: false };
    let r: int = (6 + v0_ident(k).len() + v0_ident(f).len()) as int;
    assert(sym[2] == 73);
    assert(sym.subrange(3, r) =~= ascii(seq!['N', 'v', 'C']) + v0_ident(k) + v0_ident(f));
    assert(sym[r] == t);
    assert(sym[r + 1] == 69);
    assert(sym.len() == r + 2);
    let st1 = at(st, 3);
    lemma_value_path(c, st1, 1, 0, true, k, f);
    let st2 = path(c, st1, 1, 0, true);
    let p = prim(t)->0;
    lemma_emit(c, st2, seq![58u8, 58u8]);
    let st3 = emit(c, st2, seq![58u8, 58u8]);
    lemma_emit(c, st3, seq![60u8]);
    let st4 = emit(c, st3, seq![60u8]);
    assert(peek(sym, st4) == t);
    lemma_emit(c, at(st4, r + 1), p);
    let st5 = generic_arg(c, st4, 1, 0);
    assert(st5 == emit(c, at(st4, r + 1), p));
    assert(advanced(c, st4, st5));
    assert(args(c, st5, 1, 0, false) == st5);
    assert(args(c, st4, 1, 0, true) == st5);
    let st6 = eat(sym, st5, 69);
    assert(st5.text == st4.text + p);
    assert(st4.text == st3.text + seq![60u8]);
    assert(st3.text == st2.text + seq![58u8, 58u8]);
    assert(st2.text.len() == k.len() + 2 + f.len());
    assert(st6.text == st5.text && !st6.bad);
    lemma_emit(c, st6, seq![62u8]);
    assert(path(c, st, 0, 0, true) == emit(c, st6, seq![62u8]));
    assert(Seq::<u8>::empty() + k + seq![58u8, 58u8] + f + seq![58u8, 58u8] + seq![60u8] + p + seq![62u8] =~= k
        + ascii(seq![':', ':']) + f + ascii(seq![':', ':', '<']) + p + ascii(seq!['>']));
}

/// How the v0 type constructors print around a basic type `t`: `R t` is
/// `&T`, `Q t` is `&mut T`, `P t` is `*const T`, `O t` is `*mut T` and
/// `S t` is `[T]`, `T` being the name of the basic type.
pub proof fn lemma_v0_type_constructors(c: Ctx, st: VS, depth: int, bound: int, x: u8, t: u8)
    requires
        !st.bad,
        0 <= depth < MAX_DEPTH - 1,
        0 <= st.pos,
        st.pos + 2 <= c.sym.len(),
        c.sym[st.pos] == x,
        c.sym[st.pos + 1] == t,
        prim(t) is Some,
        c.cap == 0,
    ensures
        x == 'R' as u8 ==> ty(c, st, depth, bound).text == st.text + ascii(seq!['&']) + prim(t)->0,
        x == 'Q' as u8 ==> ty(c, st, depth, bound).text == st.text + ascii(seq!['&', 'm', 'u', 't', ' ']) + prim(t)->0,
        x == 'P' as u8 ==> ty(c, st, depth, bound).text == st.text + ascii(seq!['*', 'c', 'o', 'n', 's', 't', ' '])
            + prim(t)->0,
        x == 'O' as u8 ==> ty(c, st, depth, bound).text == st.text + ascii(seq!['*', 'm', 'u', 't', ' ']) + prim(t)->0,
        x == 'S' as u8 ==> ty(c, st, depth, bound).text == st.text + ascii(seq!['[']) + prim(t)->0 + ascii(seq![']']),
        (x == 'R' as u8 || x == 'Q' as u8 || x == 'P' as u8 || x == 'O' as u8 || x == 'S' as u8) ==> ty(c, st, depth, bound).pos
            == st.pos + 2 && !ty(c, st, depth, bound).bad,
{
    lemma_basic_type_names();
    let p = prim(t)->0;
    let q = st.pos;
    let st0 = at(st, q + 1);
    assert(t != 76);
    assert(x == 'R' as u8 || x == 'Q' as u8 || x == 'P' as u8 || x == 'O' as u8 || x == 'S' as u8 ==> prim(x) is None);
    if x == 'R' as u8 || x == 'Q' as u8 {
        lemma_emit(c, st0, seq![38u8]);
        let st1 = emit(c, st0, seq![38u8]);
        assert(ref_lifetime(c, st1, bound) == st1);
        if x == 'R' as u8 {
            lemma_emit(c, st1, p);
            assert(ty(c, st1, depth + 1, bound) == emit(c, at(st1, q + 2), p));
            lemma_emit(c, at(st1, q + 2), p);
            assert(ascii(seq!['&']) =~= seq![38u8]);
        } else {
            let m = seq![109u8, 117u8, 116u8, 32u8];
            lemma_emit(c, st1, m);
            let st2 = emit(c, st1, m);
            assert(ty(c, st2, depth + 1, bound) == emit(c, at(st2, q + 2), p));
            lemma_emit(c, at(st2, q + 2), p);
            assert(ascii(seq!['&', 'm', 'u', 't', ' ']) =~= seq![38u8] + m);
            assert(st.text + seq![38u8] + m + p =~= st.text + (seq![38u8] + m) + p);
        }
    } else if x == 'P' as u8 || x == 'O' as u8 {
        let m = if x == 'P' as u8 {
            seq![42u8, 99u8, 111u8, 110u8, 115u8, 116u8, 32u8]
        } else {
            seq![42u8, 109u8, 117u8, 116u8, 32u8]
        };
        lemma_emit(c, st0, m);
        let st1 = emit(c, st0, m);
        assert(ty(c, st1, depth + 1, bound) == emit(c, at(st1, q + 2), p));
        lemma_emit(c, at(st1, q + 2), p);
        assert(ascii(seq!['*', 'c', 'o', 'n', 's', 't', ' ']) =~= seq![42u8, 99u8, 111u8, 110u8, 115u8, 116u8, 32u8]);
        assert(ascii(seq!['*', 'm', 'u', 't', ' ']) =~= seq![42u8, 109u8, 117u8, 116u8, 32u8]);
    } else if x == 'S' as u8 {
        lemma_emit(c, st0, seq![91u8]);
        let st1 = emit(c, st0, seq![91u8]);
        assert(ty(c, st1, depth + 1, bound) == emit(c, at(st1, q + 2), p));
        lemma_emit(c, at(st1, q + 2), p);
        let st2 = ty(c, st1, depth + 1, bound);
        lemma_emit(c, st2, seq![93u8]);
        assert(ascii(seq!['[']) =~= seq![91u8]);
        assert(ascii(seq![']']) =~= seq![93u8]);
    }
}

} // verus!
