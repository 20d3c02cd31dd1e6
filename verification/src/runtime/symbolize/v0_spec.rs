//! The meaning of a Rust v0 symbol (RFC 2603), as the demangler in
//! `demangle_v0` reads it.
//!
//! Each production is a function from a parse state to the next: the
//! state is the offset into the symbol, the text printed so far and a
//! failure flag. Once the flag is set every production leaves the state
//! as it is. The context holds the symbol, the offset that
//! backreferences are measured from, and the output capacity (0 means
//! "count, do not keep": the output then never runs out of room).
//!
//! `depth` is the nesting depth of paths and types (capped at
//! `MAX_DEPTH`) and `bound` the number of higher-ranked lifetimes in
//! scope, which names them.
use vstd::prelude::*;

verus! {

/// Deepest nesting of paths and types that is followed.
pub const MAX_DEPTH: u32 = 64;

/// What a parse reads and where it writes.
pub struct Ctx {
    pub sym: Seq<u8>,
    pub base: int,
    pub cap: int,
}

/// A parse state.
pub struct VS {
    pub pos: int,
    pub text: Seq<u8>,
    pub bad: bool,
}

pub open spec fn fail(st: VS) -> VS {
    VS { bad: true, ..st }
}

pub open spec fn at(st: VS, p: int) -> VS {
    VS { pos: p, ..st }
}

/// The byte at the cursor, or 0 past the end.
pub open spec fn peek(sym: Seq<u8>, st: VS) -> u8 {
    if 0 <= st.pos < sym.len() {
        sym[st.pos]
    } else {
        0
    }
}

/// Takes the byte at the cursor; a 0 byte (or the end) fails.
pub open spec fn next(sym: Seq<u8>, st: VS) -> (VS, u8) {
    if st.bad {
        (st, 0)
    } else if peek(sym, st) == 0 {
        (fail(st), 0)
    } else {
        (at(st, st.pos + 1), peek(sym, st))
    }
}

/// Takes `want`, or fails.
pub open spec fn eat(sym: Seq<u8>, st: VS, want: u8) -> VS {
    if st.bad {
        st
    } else if peek(sym, st) == want {
        at(st, st.pos + 1)
    } else {
        fail(st)
    }
}

/// Prints one byte; fails when a bounded output is full.
pub open spec fn putc(c: Ctx, st: VS, b: u8) -> VS {
    if st.bad {
        st
    } else if c.cap != 0 && st.text.len() >= c.cap {
        fail(st)
    } else {
        VS { text: st.text.push(b), ..st }
    }
}

/// Prints `s`, byte by byte.
pub open spec fn emit(c: Ctx, st: VS, s: Seq<u8>) -> VS
    decreases s.len(),
{
    if st.bad || s.len() == 0 {
        st
    } else {
        emit(c, putc(c, st, s[0]), s.drop_first())
    }
}

/// The decimal digits of `v`.
pub open spec fn dec_digits(v: nat) -> Seq<u8>
    decreases v,
{
    if v < 10 {
        seq![(48 + v) as u8]
    } else {
        dec_digits(v / 10).push((48 + v % 10) as u8)
    }
}

pub open spec fn is_digit(b: u8) -> bool {
    48 <= b <= 57
}

/// The value of a base-62 digit (`0-9a-zA-Z`), or -1.
pub open spec fn b62_digit(b: u8) -> int {
    if 48 <= b <= 57 {
        b - 48
    } else if 97 <= b <= 122 {
        b - 97 + 10
    } else if 65 <= b <= 90 {
        b - 65 + 36
    } else {
        -1
    }
}

/// The value of a hex digit (`0-9a-f`), or -1.
pub open spec fn hex_digit(b: u8) -> int {
    if 48 <= b <= 57 {
        b - 48
    } else if 97 <= b <= 102 {
        b - 97 + 10
    } else {
        -1
    }
}

/// The digits of a base-62 number after the first; `v` is the value so
/// far.
pub open spec fn b62_loop(sym: Seq<u8>, st: VS, v: int) -> (VS, int)
    decreases sym.len() - st.pos,
{
    if st.bad {
        (st, 0)
    } else if !(0 <= st.pos < sym.len()) {
        (fail(st), 0)
    } else {
        let (st1, b) = next(sym, st);
        if st1.bad {
            (st1, 0)
        } else if b == 95 {
            if v + 1 > u64::MAX {
                (fail(st1), 0)
            } else {
                (st1, v + 1)
            }
        } else if b62_digit(b) < 0 || v * 62 + b62_digit(b) > u64::MAX {
            (fail(st1), 0)
        } else {
            b62_loop(sym, st1, v * 62 + b62_digit(b))
        }
    }
}

/// A base-62 number: `_` is 0, digits then `_` are their value plus one.
pub open spec fn base62(sym: Seq<u8>, st: VS) -> (VS, int) {
    if st.bad {
        (st, 0)
    } else if peek(sym, st) == 95 {
        (at(st, st.pos + 1), 0)
    } else {
        b62_loop(sym, st, 0)
    }
}

/// The digits of a decimal number after the first.
pub open spec fn dec_loop(sym: Seq<u8>, st: VS, v: int) -> (VS, int)
    decreases sym.len() - st.pos,
{
    if st.bad {
        (st, 0)
    } else if !(0 <= st.pos < sym.len()) || !is_digit(peek(sym, st)) {
        (st, v)
    } else {
        let nv = v * 10 + (peek(sym, st) - 48);
        if nv > usize::MAX {
            (fail(at(st, st.pos + 1)), 0)
        } else {
            dec_loop(sym, at(st, st.pos + 1), nv)
        }
    }
}

/// A decimal length; a leading `0` ends it.
pub open spec fn decimal(sym: Seq<u8>, st: VS) -> (VS, int) {
    if st.bad {
        (st, 0)
    } else if !is_digit(peek(sym, st)) {
        (fail(st), 0)
    } else if peek(sym, st) == 48 {
        (at(st, st.pos + 1), 0)
    } else {
        dec_loop(sym, at(st, st.pos + 1), peek(sym, st) - 48)
    }
}

/// `s<base62>`: the number plus one, or 0 when absent.
pub open spec fn disambiguator(sym: Seq<u8>, st: VS) -> (VS, int) {
    if st.bad {
        (st, 0)
    } else if peek(sym, st) == 115 {
        let (st1, v) = base62(sym, at(st, st.pos + 1));
        if v + 1 > u64::MAX {
            (fail(st1), 0)
        } else {
            (st1, v + 1)
        }
    } else {
        (st, 0)
    }
}

/// Prints the decimal `v`.
pub open spec fn emit_u64(c: Ctx, st: VS, v: int) -> VS {
    emit(c, st, dec_digits(v as nat))
}

/// Prints a lifetime: `'_` for 0, else a letter counted from the
/// outermost of the `bound` binders in scope.
pub open spec fn lifetime(c: Ctx, st: VS, bound: int, lt: int) -> VS {
    if st.bad {
        st
    } else {
        let st1 = emit(c, st, seq![39u8]);
        if lt == 0 {
            emit(c, st1, seq![95u8])
        } else if bound >= lt {
            let d = bound - lt;
            let st2 = putc(c, st1, (97 + d % 26) as u8);
            if d >= 26 {
                emit_u64(c, st2, d / 26)
            } else {
                st2
            }
        } else {
            fail(st1)
        }
    }
}

/// `u? <decimal> _? <bytes>`: prints the bytes when `print`; a punycode
/// name (`u`) fails.
pub open spec fn ident(c: Ctx, st: VS, print: bool) -> VS {
    if st.bad {
        st
    } else {
        let puny = peek(c.sym, st) == 117;
        let st1 = if puny {
            at(st, st.pos + 1)
        } else {
            st
        };
        let (st2, n) = decimal(c.sym, st1);
        if st2.bad {
            st2
        } else {
            let st3 = if peek(c.sym, st2) == 95 {
                at(st2, st2.pos + 1)
            } else {
                st2
            };
            if st3.pos + n > c.sym.len() || puny {
                fail(st3)
            } else {
                let st4 = at(st3, st3.pos + n);
                if print {
                    emit(c, st4, c.sym.subrange(st3.pos, st3.pos + n))
                } else {
                    st4
                }
            }
        }
    }
}

/// Prints the binder's lifetimes `i..n` of a `for<...>`.
pub open spec fn binder_loop(c: Ctx, st: VS, bound: int, i: int, n: int) -> VS
    decreases n - i,
{
    if st.bad || i >= n {
        st
    } else {
        let st1 = if i > 0 {
            emit(c, st, seq![44u8, 32u8])
        } else {
            st
        };
        binder_loop(c, lifetime(c, st1, bound + i + 1, 1), bound, i + 1, n)
    }
}

/// `G <base62>`: a binder of that many lifetimes plus one, printed as
/// `for<...> `; returns how many it introduced.
pub open spec fn push_binder(c: Ctx, st: VS, bound: int) -> (VS, int) {
    if st.bad || peek(c.sym, st) != 71 {
        (st, 0)
    } else {
        let (st1, v) = base62(c.sym, at(st, st.pos + 1));
        if st1.bad {
            (st1, 0)
        } else if v + 1 > u64::MAX || bound + v + 1 > u64::MAX {
            (fail(st1), 0)
        } else {
            let n = v + 1;
            let st2 = emit(c, st1, seq![102u8, 111u8, 114u8, 60u8]);
            let st3 = binder_loop(c, st2, bound, 0, n);
            (emit(c, st3, seq![62u8, 32u8]), n)
        }
    }
}

/// A reference's lifetime: printed with a space when it is named.
pub open spec fn ref_lifetime(c: Ctx, st: VS, bound: int) -> VS {
    if st.bad || peek(c.sym, st) != 76 {
        st
    } else {
        let (st1, lt) = base62(c.sym, at(st, st.pos + 1));
        if lt != 0 {
            emit(c, lifetime(c, st1, bound, lt), seq![32u8])
        } else {
            st1
        }
    }
}

/// `B <base62>`: the offset a backreference points at, checked to lie
/// strictly before the reference.
pub open spec fn backref_target(c: Ctx, st: VS) -> (VS, int) {
    let (st1, idx) = base62(c.sym, st);
    if st1.bad {
        (st1, 0)
    } else if c.base + idx >= c.sym.len() || c.base + idx >= st1.pos {
        (fail(st1), 0)
    } else {
        (st1, c.base + idx)
    }
}

pub open spec fn is_int_tag(b: u8) -> bool {
    b == 97 || b == 98 || b == 99 || b == 100 || b == 101 || b == 102 || b == 104 || b == 105
        || b == 106 || b == 108 || b == 109 || b == 110 || b == 111 || b == 115 || b == 116 || b
        == 117 || b == 118 || b == 120 || b == 121 || b == 122
}

/// The hex digits of a const's value, up to the `_`, wrapping at 64
/// bits.
pub open spec fn hex_loop(sym: Seq<u8>, st: VS, v: int) -> (VS, int)
    decreases sym.len() - st.pos,
{
    if st.bad || peek(sym, st) == 95 {
        (st, v)
    } else {
        let (st1, b) = next(sym, st);
        if st1.bad || hex_digit(b) < 0 {
            (fail(st1), 0)
        } else {
            hex_loop(sym, st1, (v * 16 + hex_digit(b)) % 0x1_0000_0000_0000_0000)
        }
    }
}

/// A const generic argument: an integer or a bool, or a backreference
/// to one. A chain of more than `fuel` backreferences fails: it has
/// visited some offset twice and would never end.
pub open spec fn konst(c: Ctx, st: VS, fuel: int) -> VS
    decreases fuel,
{
    if st.bad {
        st
    } else {
        let (st1, tag) = next(c.sym, st);
        if st1.bad {
            st1
        } else if is_int_tag(tag) {
            let st2 = if peek(c.sym, st1) == 110 {
                emit(c, at(st1, st1.pos + 1), seq![45u8])
            } else {
                st1
            };
            let (st3, v) = hex_loop(c.sym, st2, 0);
            let st4 = eat(c.sym, st3, 95);
            if tag == 98 {
                if v == 0 {
                    emit(c, st4, seq![102u8, 97u8, 108u8, 115u8, 101u8])
                } else {
                    emit(c, st4, seq![116u8, 114u8, 117u8, 101u8])
                }
            } else {
                emit_u64(c, st4, v)
            }
        } else if tag == 66 {
            let (st2, target) = backref_target(c, st1);
            if st2.bad {
                st2
            } else if fuel <= 0 {
                fail(st2)
            } else {
                at(konst(c, at(st2, target), fuel - 1), st2.pos)
            }
        } else {
            fail(st1)
        }
    }
}

/// The name of a basic type, by its tag.
pub open spec fn prim(b: u8) -> Option<Seq<u8>> {
    if b == 97 {
        Some(seq![105u8, 56u8])
    } else if b == 98 {
        Some(seq![98u8, 111u8, 111u8, 108u8])
    } else if b == 99 {
        Some(seq![99u8, 104u8, 97u8, 114u8])
    } else if b == 100 {
        Some(seq![102u8, 54u8, 52u8])
    } else if b == 101 {
        Some(seq![115u8, 116u8, 114u8])
    } else if b == 102 {
        Some(seq![102u8, 51u8, 50u8])
    } else if b == 104 {
        Some(seq![117u8, 56u8])
    } else if b == 105 {
        Some(seq![105u8, 115u8, 105u8, 122u8, 101u8])
    } else if b == 106 {
        Some(seq![117u8, 115u8, 105u8, 122u8, 101u8])
    } else if b == 108 {
        Some(seq![105u8, 51u8, 50u8])
    } else if b == 109 {
        Some(seq![117u8, 51u8, 50u8])
    } else if b == 110 {
        Some(seq![105u8, 49u8, 50u8, 56u8])
    } else if b == 111 {
        Some(seq![117u8, 49u8, 50u8, 56u8])
    } else if b == 115 {
        Some(seq![105u8, 49u8, 54u8])
    } else if b == 116 {
        Some(seq![117u8, 49u8, 54u8])
    } else if b == 117 {
        Some(seq![40u8, 41u8])
    } else if b == 118 {
        Some(seq![46u8, 46u8, 46u8])
    } else if b == 120 {
        Some(seq![105u8, 54u8, 52u8])
    } else if b == 121 {
        Some(seq![117u8, 54u8, 52u8])
    } else if b == 122 {
        Some(seq![33u8])
    } else if b == 112 {
        Some(seq![95u8])
    } else {
        None
    }
}

/// The bytes of ASCII text.
pub open spec fn ascii(s: Seq<char>) -> Seq<u8> {
    s.map_values(|c: char| c as u8)
}

/// The basic types of the v0 mangling scheme: the tag of each and the
/// Rust type name it prints (`a` `i8`, `b` `bool`, `c` `char`, `d` `f64`,
/// `e` `str`, `f` `f32`, `h` `u8`, `i` `isize`, `j` `usize`, `l` `i32`,
/// `m` `u32`, `n` `i128`, `o` `u128`, `s` `i16`, `t` `u16`, `u` `()`,
/// `v` `...`, `x` `i64`, `y` `u64`, `z` `!`, `p` `_`); no other byte is
/// a basic type.
pub proof fn lemma_basic_type_names()
    ensures
        prim('a' as u8) == Some(ascii(seq!['i', '8'])),
        prim('b' as u8) == Some(ascii(seq!['b', 'o', 'o', 'l'])),
        prim('c' as u8) == Some(ascii(seq!['c', 'h', 'a', 'r'])),
        prim('d' as u8) == Some(ascii(seq!['f', '6', '4'])),
        prim('e' as u8) == Some(ascii(seq!['s', 't', 'r'])),
        prim('f' as u8) == Some(ascii(seq!['f', '3', '2'])),
        prim('h' as u8) == Some(ascii(seq!['u', '8'])),
        prim('i' as u8) == Some(ascii(seq!['i', 's', 'i', 'z', 'e'])),
        prim('j' as u8) == Some(ascii(seq!['u', 's', 'i', 'z', 'e'])),
        prim('l' as u8) == Some(ascii(seq!['i', '3', '2'])),
        prim('m' as u8) == Some(ascii(seq!['u', '3', '2'])),
        prim('n' as u8) == Some(ascii(seq!['i', '1', '2', '8'])),
        prim('o' as u8) == Some(ascii(seq!['u', '1', '2', '8'])),
        prim('s' as u8) == Some(ascii(seq!['i', '1', '6'])),
        prim('t' as u8) == Some(ascii(seq!['u', '1', '6'])),
        prim('u' as u8) == Some(ascii(seq!['(', ')'])),
        prim('v' as u8) == Some(ascii(seq!['.', '.', '.'])),
        prim('x' as u8) == Some(ascii(seq!['i', '6', '4'])),
        prim('y' as u8) == Some(ascii(seq!['u', '6', '4'])),
        prim('z' as u8) == Some(ascii(seq!['!'])),
        prim('p' as u8) == Some(ascii(seq!['_'])),
        forall|b: u8| #[trigger] prim(b) is Some <==> (b == 'a' as u8 || b == 'b' as u8 || b == 'c' as u8 || b == 'd' as u8 || b == 'e' as u8 || b == 'f' as u8 || b == 'h' as u8 || b == 'i' as u8 || b == 'j' as u8 || b == 'l' as u8 || b == 'm' as u8 || b == 'n' as u8 || b == 'o' as u8 || b == 's' as u8 || b == 't' as u8 || b == 'u' as u8 || b == 'v' as u8 || b == 'x' as u8 || b == 'y' as u8 || b == 'z' as u8 || b == 'p' as u8),
{
    assert(ascii(seq!['u', '6', '4']) =~= seq![117u8, 54u8, 52u8]);
}

/// `t` with every `_` from `save` on turned into `-`, as a named ABI is
/// printed.
pub open spec fn abi_fix(t: Seq<u8>, save: int) -> Seq<u8> {
    t.subrange(0, save) + t.subrange(save, t.len() as int).map_values(
        |b: u8|
            if b == 95 {
                45u8
            } else {
                b
            },
    )
}

/// The loop went forward and stayed inside the symbol.
pub open spec fn advanced(c: Ctx, before: VS, after: VS) -> bool {
    before.pos < after.pos <= c.sym.len()
}

/// A path: crate root, nested name, impl, trait, generic
/// specialization or backreference.
pub open spec fn path(c: Ctx, st: VS, depth: int, bound: int, in_value: bool) -> VS
    decreases 65 - depth, 0int, 0int, 0int,
{
    if st.bad {
        st
    } else if depth + 1 > MAX_DEPTH {
        fail(st)
    } else {
        let d1 = depth + 1;
        let (st1, tag) = next(c.sym, st);
        if st1.bad {
            st1
        } else if tag == 67 {
            let (st2, _) = disambiguator(c.sym, st1);
            ident(c, st2, true)
        } else if tag == 78 {
            let (st2, ns) = next(c.sym, st1);
            if st2.bad {
                st2
            } else {
                let st3 = path(c, st2, d1, bound, in_value);
                if st3.bad {
                    st3
                } else {
                    let (st4, dis) = disambiguator(c.sym, st3);
                    if ns == 67 || ns == 83 {
                        let st5 = emit(c, st4, seq![58u8, 58u8, 123u8]);
                        let st6 = if ns == 67 {
                            emit(c, st5, seq![99u8, 108u8, 111u8, 115u8, 117u8, 114u8, 101u8])
                        } else {
                            emit(c, st5, seq![115u8, 104u8, 105u8, 109u8])
                        };
                        let st7 = if peek(c.sym, st6) != 48 {
                            ident(c, emit(c, st6, seq![58u8]), true)
                        } else {
                            ident(c, st6, false)
                        };
                        if st7.pos == st6.pos {
                            fail(st7)
                        } else {
                            emit(c, emit_u64(c, emit(c, st7, seq![35u8]), dis), seq![125u8])
                        }
                    } else {
                        ident(c, emit(c, st4, seq![58u8, 58u8]), true)
                    }
                }
            }
        } else if tag == 77 {
            let st2 = impl_path(c, st1, d1, bound);
            let st3 = ty(c, emit(c, st2, seq![60u8]), d1, bound);
            emit(c, st3, seq![62u8])
        } else if tag == 88 {
            let st2 = impl_path(c, st1, d1, bound);
            let st3 = ty(c, emit(c, st2, seq![60u8]), d1, bound);
            let st4 = path(c, emit(c, st3, seq![32u8, 97u8, 115u8, 32u8]), d1, bound, false);
            emit(c, st4, seq![62u8])
        } else if tag == 89 {
            let st3 = ty(c, emit(c, st1, seq![60u8]), d1, bound);
            let st4 = path(c, emit(c, st3, seq![32u8, 97u8, 115u8, 32u8]), d1, bound, false);
            emit(c, st4, seq![62u8])
        } else if tag == 73 {
            let st2 = path(c, st1, d1, bound, in_value);
            if st2.bad {
                st2
            } else {
                let st3 = if in_value {
                    emit(c, st2, seq![58u8, 58u8])
                } else {
                    st2
                };
                let st4 = args(c, emit(c, st3, seq![60u8]), d1, bound, true);
                emit(c, eat(c.sym, st4, 69), seq![62u8])
            }
        } else if tag == 66 {
            let (st2, target) = backref_target(c, st1);
            if st2.bad {
                st2
            } else {
                at(path(c, at(st2, target), d1, bound, in_value), st2.pos)
            }
        } else {
            fail(st1)
        }
    }
}

/// `impl-path`: a disambiguator and a path whose printed name is
/// dropped again.
pub open spec fn impl_path(c: Ctx, st: VS, depth: int, bound: int) -> VS
    decreases 65 - depth, 1int, 0int, 0int,
{
    if st.bad {
        st
    } else {
        let (st1, _) = disambiguator(c.sym, st);
        let st2 = path(c, st1, depth, bound, false);
        VS { text: st2.text.subrange(0, st1.text.len() as int), ..st2 }
    }
}

/// A generic argument: lifetime, const or type.
pub open spec fn generic_arg(c: Ctx, st: VS, depth: int, bound: int) -> VS
    decreases 65 - depth, 1int, 0int, 0int,
{
    if st.bad {
        st
    } else if peek(c.sym, st) == 76 {
        let (st1, lt) = base62(c.sym, at(st, st.pos + 1));
        lifetime(c, st1, bound, lt)
    } else if peek(c.sym, st) == 75 {
        konst(c, at(st, st.pos + 1), c.sym.len() as int)
    } else {
        ty(c, st, depth, bound)
    }
}

/// Generic arguments up to the `E`, separated by `, `.
pub open spec fn args(c: Ctx, st: VS, depth: int, bound: int, first: bool) -> VS
    decreases 65 - depth, 2int, 0int, c.sym.len() - st.pos,
{
    if st.bad || peek(c.sym, st) == 69 {
        st
    } else {
        let st1 = if first {
            st
        } else {
            emit(c, st, seq![44u8, 32u8])
        };
        let st2 = generic_arg(c, st1, depth, bound);
        if st2.bad || !advanced(c, st, st2) {
            st2
        } else {
            args(c, st2, depth, bound, false)
        }
    }
}

/// A type.
pub open spec fn ty(c: Ctx, st: VS, depth: int, bound: int) -> VS
    decreases 65 - depth, 0int, 0int, 0int,
{
    if st.bad {
        st
    } else if depth + 1 > MAX_DEPTH {
        fail(st)
    } else {
        let d1 = depth + 1;
        let b = peek(c.sym, st);
        let st0 = at(st, st.pos + 1);
        if prim(b) is Some {
            emit(c, st0, prim(b)->0)
        } else if b == 65 {
            let st2 = ty(c, emit(c, st0, seq![91u8]), d1, bound);
            let st3 = konst(c, emit(c, st2, seq![59u8, 32u8]), c.sym.len() as int);
            emit(c, st3, seq![93u8])
        } else if b == 83 {
            let st2 = ty(c, emit(c, st0, seq![91u8]), d1, bound);
            emit(c, st2, seq![93u8])
        } else if b == 84 {
            let (st2, n) = tuple(c, emit(c, st0, seq![40u8]), d1, bound, true, 0);
            let st3 = eat(c.sym, st2, 69);
            let st4 = if n == 1 {
                emit(c, st3, seq![44u8])
            } else {
                st3
            };
            emit(c, st4, seq![41u8])
        } else if b == 82 {
            let st2 = ref_lifetime(c, emit(c, st0, seq![38u8]), bound);
            ty(c, st2, d1, bound)
        } else if b == 81 {
            let st2 = ref_lifetime(c, emit(c, st0, seq![38u8]), bound);
            ty(c, emit(c, st2, seq![109u8, 117u8, 116u8, 32u8]), d1, bound)
        } else if b == 80 {
            ty(c, emit(c, st0, seq![42u8, 99u8, 111u8, 110u8, 115u8, 116u8, 32u8]), d1, bound)
        } else if b == 79 {
            ty(c, emit(c, st0, seq![42u8, 109u8, 117u8, 116u8, 32u8]), d1, bound)
        } else if b == 66 {
            let (st2, target) = backref_target(c, st0);
            if st2.bad {
                st2
            } else {
                at(ty(c, at(st2, target), d1, bound), st2.pos)
            }
        } else if b == 70 {
            fn_sig(c, st0, d1, bound)
        } else if b == 68 {
            dyn_bounds(c, st0, d1, bound)
        } else {
            path(c, st, d1, bound, false)
        }
    }
}

/// Tuple elements up to the `E`; also counts them.
pub open spec fn tuple(c: Ctx, st: VS, depth: int, bound: int, first: bool, n: int) -> (VS, int)
    decreases 65 - depth, 1int, 0int, c.sym.len() - st.pos,
{
    if st.bad || peek(c.sym, st) == 69 {
        (st, n)
    } else {
        let st1 = if first {
            st
        } else {
            emit(c, st, seq![44u8, 32u8])
        };
        let st2 = ty(c, st1, depth, bound);
        if st2.bad || !advanced(c, st, st2) {
            (st2, n + 1)
        } else {
            tuple(c, st2, depth, bound, false, n + 1)
        }
    }
}

/// Function parameter types up to the `E`.
pub open spec fn fn_args(c: Ctx, st: VS, depth: int, bound: int, first: bool) -> VS
    decreases 65 - depth, 1int, 0int, c.sym.len() - st.pos,
{
    if st.bad || peek(c.sym, st) == 69 {
        st
    } else {
        let st1 = if first {
            st
        } else {
            emit(c, st, seq![44u8, 32u8])
        };
        let st2 = ty(c, st1, depth, bound);
        if st2.bad || !advanced(c, st, st2) {
            st2
        } else {
            fn_args(c, st2, depth, bound, false)
        }
    }
}

/// The ABI of a function type after `K`: `C`, or a name whose `_` are
/// printed as `-`.
pub open spec fn abi(c: Ctx, st: VS) -> VS {
    if peek(c.sym, st) == 67 {
        emit(c, at(st, st.pos + 1), seq![67u8])
    } else {
        let st1 = ident(c, st, true);
        if c.cap != 0 {
            VS { text: abi_fix(st1.text, st.text.len() as int), ..st1 }
        } else {
            st1
        }
    }
}

/// `F <binder>? U? (K <abi>)? {type} E <ret>`: a function pointer type.
pub open spec fn fn_sig(c: Ctx, st: VS, depth: int, bound: int) -> VS
    decreases 65 - depth, 2int, 0int, 0int,
{
    if st.bad {
        st
    } else {
        let (st1, n) = push_binder(c, st, bound);
        let b2 = bound + n;
        let st2 = if peek(c.sym, st1) == 85 {
            emit(
                c,
                at(st1, st1.pos + 1),
                seq![117u8, 110u8, 115u8, 97u8, 102u8, 101u8, 32u8],
            )
        } else {
            st1
        };
        let st3 = if peek(c.sym, st2) == 75 {
            let sa = emit(
                c,
                at(st2, st2.pos + 1),
                seq![101u8, 120u8, 116u8, 101u8, 114u8, 110u8, 32u8, 34u8],
            );
            emit(c, abi(c, sa), seq![34u8, 32u8])
        } else {
            st2
        };
        let st4 = emit(c, st3, seq![102u8, 110u8, 40u8]);
        let st5 = fn_args(c, st4, depth, b2, true);
        let st7 = emit(c, eat(c.sym, st5, 69), seq![41u8]);
        if peek(c.sym, st7) == 117 && !st7.bad {
            at(st7, st7.pos + 1)
        } else {
            ty(c, emit(c, st7, seq![32u8, 45u8, 62u8, 32u8]), depth, b2)
        }
    }
}

/// A path whose generic list, if it has one, is left open; says
/// whether it is. A chain of more than `fuel` backreferences fails.
pub open spec fn pog(c: Ctx, st: VS, depth: int, bound: int, fuel: int) -> (VS, bool)
    decreases 65 - depth, 3int, fuel, 0int,
{
    if st.bad {
        (st, false)
    } else if peek(c.sym, st) == 66 {
        let (st2, target) = backref_target(c, at(st, st.pos + 1));
        if st2.bad {
            (st2, false)
        } else if fuel <= 0 {
            (fail(st2), false)
        } else {
            let (st3, open) = pog(c, at(st2, target), depth, bound, fuel - 1);
            (at(st3, st2.pos), open)
        }
    } else if peek(c.sym, st) != 73 {
        (path(c, st, depth, bound, false), false)
    } else {
        let st2 = path(c, at(st, st.pos + 1), depth, bound, false);
        if st2.bad {
            (st2, false)
        } else {
            let st4 = args(c, emit(c, st2, seq![60u8]), depth, bound, true);
            (eat(c.sym, st4, 69), true)
        }
    }
}

/// Associated-type bindings `p <ident> <type>` of one dyn trait, joined
/// into its generic list.
pub open spec fn dyn_inner(c: Ctx, st: VS, depth: int, bound: int, open: bool) -> (VS, bool)
    decreases 65 - depth, 1int, 0int, c.sym.len() - st.pos,
{
    if st.bad || peek(c.sym, st) != 112 {
        (st, open)
    } else {
        let st1 = at(st, st.pos + 1);
        let st2 = if !open {
            emit(c, st1, seq![60u8])
        } else {
            emit(c, st1, seq![44u8, 32u8])
        };
        let st3 = emit(c, ident(c, st2, true), seq![32u8, 61u8, 32u8]);
        let st5 = ty(c, st3, depth, bound);
        if st5.bad || !advanced(c, st, st5) {
            (st5, true)
        } else {
            dyn_inner(c, st5, depth, bound, true)
        }
    }
}

/// The traits of a `dyn`, up to the `E`, joined with ` + `.
pub open spec fn dyn_outer(c: Ctx, st: VS, depth: int, bound: int, first: bool) -> VS
    decreases 65 - depth, 4int, 0int, c.sym.len() - st.pos,
{
    if st.bad || peek(c.sym, st) == 69 {
        st
    } else {
        let st1 = if first {
            st
        } else {
            emit(c, st, seq![32u8, 43u8, 32u8])
        };
        let (st2, open) = pog(c, st1, depth, bound, c.sym.len() as int);
        let (st3, open2) = dyn_inner(c, st2, depth, bound, open);
        let st4 = if open2 {
            emit(c, st3, seq![62u8])
        } else {
            st3
        };
        if st4.bad || !advanced(c, st, st4) {
            st4
        } else {
            dyn_outer(c, st4, depth, bound, false)
        }
    }
}

/// `D <binder>? {dyn-trait} E <lifetime>`: a trait object type.
pub open spec fn dyn_bounds(c: Ctx, st: VS, depth: int, bound: int) -> VS
    decreases 65 - depth, 5int, 0int, 0int,
{
    if st.bad {
        st
    } else {
        let (st2, nb) = push_binder(c, emit(c, st, seq![100u8, 121u8, 110u8, 32u8]), bound);
        let b2 = bound + nb;
        let st4 = eat(c.sym, dyn_outer(c, st2, depth, b2, true), 69);
        if st4.bad {
            st4
        } else if peek(c.sym, st4) == 76 {
            let (st6, lt) = base62(c.sym, at(st4, st4.pos + 1));
            if lt != 0 {
                lifetime(c, emit(c, st6, seq![32u8, 43u8, 32u8]), b2, lt)
            } else {
                st6
            }
        } else {
            fail(st4)
        }
    }
}

/// Where the path grammar of `sym` starts: after `_R` and an optional
/// `_`.
pub open spec fn v0_base(sym: Seq<u8>) -> int {
    if sym[2] == 95 {
        3
    } else {
        2
    }
}

/// What the v0 symbol `sym` demangles to with an output of capacity
/// `cap` (0: unbounded): `None` when it is not a v0 symbol, uses a
/// construct that is not modelled, or does not fit.
pub open spec fn v0_demangled(sym: Seq<u8>, cap: int) -> Option<Seq<u8>> {
    if sym.len() < 3 || sym[0] != 95 || sym[1] != 82 {
        None
    } else {
        let base = v0_base(sym);
        let c = Ctx { sym, base, cap };
        let st = path(c, VS { pos: base, text: Seq::empty(), bad: false }, 0, 0, true);
        if st.bad {
            None
        } else if st.pos < sym.len() {
            let probe = path(
                Ctx { sym, base, cap: 0 },
                VS { pos: st.pos, text: Seq::empty(), bad: false },
                0,
                0,
                true,
            );
            if probe.bad || probe.pos != sym.len() {
                None
            } else {
                Some(st.text)
            }
        } else {
            Some(st.text)
        }
    }
}

} // verus!
