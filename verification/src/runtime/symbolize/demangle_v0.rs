//! The Rust v0 symbol demangler (RFC 2603): crate roots, nested paths,
//! inherent and trait impls, generic arguments, closures,
//! backreferences, the basic types, references, pointers, slices,
//! arrays, tuples, `dyn` and fn pointers. What it does not model makes
//! it return 0, and a caller that gets 0 prints the raw symbol.
//!
//! The output goes into a buffer that the caller supplies. An empty
//! buffer means "parse and count, do not keep": that is how the
//! trailing instantiating-crate path is checked without printing it.
//! What each production reads and prints is stated in `v0_spec`; every
//! method here moves the demangler from one state of that module to the
//! next.
use vstd::prelude::*;
use vstd::slice::slice_subrange;
use crate::runtime::symbolize::v0_spec::{
    abi, abi_fix, advanced, args, at, b62_digit, b62_loop, backref_target, base62, binder_loop,
    dec_digits, dec_loop, decimal, disambiguator, dyn_bounds, dyn_inner, dyn_outer, eat, emit,
    emit_u64, fail, fn_args, fn_sig, generic_arg, hex_digit, hex_loop, ident, impl_path, is_digit,
    is_int_tag, konst, lifetime, next, path, peek, pog, prim, push_binder, putc, ref_lifetime, ty,
    tuple, v0_base, v0_demangled, Ctx, MAX_DEPTH, VS,
};

verus! {

/// The demangler's cursor and output length; `text` is what the output
/// holds (or, when it is only counted, would hold).
pub struct Demangler {
    base: usize,
    pos: usize,
    olen: usize,
    bad: bool,
    text: Ghost<Seq<u8>>,
}

/// `out` keeps what was printed; an empty `out` only counts it.
pub open spec fn out_ok(olen: int, text: Seq<u8>, out: Seq<u8>) -> bool {
    if out.len() > 0 {
        olen == text.len() && olen <= out.len() && out.subrange(0, olen) == text
    } else {
        olen == (if text.len() <= usize::MAX {
            text.len() as int
        } else {
            usize::MAX as int
        })
    }
}

impl Demangler {
    /// The parse state this demangler is in.
    pub closed spec fn st(&self) -> VS {
        VS { pos: self.pos as int, text: self.text@, bad: self.bad }
    }

    pub closed spec fn base_of(&self) -> int {
        self.base as int
    }

    pub closed spec fn olen_of(&self) -> int {
        self.olen as int
    }

    /// The cursor lies in the symbol and `out` agrees with the text.
    pub closed spec fn wf(&self, sym: Seq<u8>, out: Seq<u8>) -> bool {
        &&& self.pos <= sym.len()
        &&& self.base <= sym.len()
        &&& out_ok(self.olen as int, self.text@, out)
    }
}

/// The context a demangler reads `sym` and writes `out` in.
pub open spec fn ctx_of(d: Demangler, sym: Seq<u8>, out: Seq<u8>) -> Ctx {
    Ctx { sym, base: d.base_of(), cap: out.len() as int }
}

/// `new` is where `old` goes by a step whose meaning is `want`: the same
/// failure, and the same state when there is none. A failed demangler
/// stays failed, and what was printed before the step stays printed.
pub open spec fn stepped(
    old: Demangler,
    new: Demangler,
    sym: Seq<u8>,
    o_old: Seq<u8>,
    o_new: Seq<u8>,
    want: VS,
) -> bool {
    &&& new.wf(sym, o_new)
    &&& o_new.len() == o_old.len()
    &&& new.base_of() == old.base_of()
    &&& (old.st().bad ==> new.st().bad)
    &&& (!old.st().bad ==> new.st().bad == want.bad && (!want.bad ==> new.st() == want))
    &&& old.st().text.len() <= new.st().text.len()
    &&& new.st().text.subrange(0, old.st().text.len() as int) == old.st().text
}

impl Demangler {
    /// Prints one byte.
    fn putc(&mut self, sym: &[u8], out: &mut [u8], b: u8)
        requires
            old(self).wf(sym@, old(out)@),
        ensures
            stepped(
                *old(self),
                *final(self),
                sym@,
                old(out)@,
                final(out)@,
                putc(ctx_of(*old(self), sym@, old(out)@), old(self).st(), b),
            ),
            final(self).st().pos == old(self).st().pos,
    {
        let ghost t0 = self.text@;
        if out.len() == 0 {
            if self.olen < usize::MAX {
                self.olen = self.olen + 1;
            }
            self.text = Ghost(self.text@.push(b));
            assert(self.text@.subrange(0, t0.len() as int) =~= t0);
            return;
        }
        if self.olen >= out.len() {
            self.bad = true;
            assert(self.text@.subrange(0, t0.len() as int) =~= t0);
            return;
        }
        let ghost o0 = out@;
        out[self.olen] = b;
        self.olen = self.olen + 1;
        self.text = Ghost(self.text@.push(b));
        assert(out@.subrange(0, self.olen as int) =~= self.text@) by {
            assert(o0.subrange(0, self.olen - 1) =~= t0);
        }
        assert(self.text@.subrange(0, t0.len() as int) =~= t0);
    }

    /// Prints `s`, stopping at a failure.
    fn emit(&mut self, sym: &[u8], out: &mut [u8], s: &[u8])
        requires
            old(self).wf(sym@, old(out)@),
        ensures
            stepped(
                *old(self),
                *final(self),
                sym@,
                old(out)@,
                final(out)@,
                emit(ctx_of(*old(self), sym@, old(out)@), old(self).st(), s@),
            ),
            final(self).st().pos == old(self).st().pos,
    {
        let ghost c = ctx_of(*self, sym@, out@);
        let ghost st0 = self.st();
        let ghost t0 = self.text@;
        let mut i: usize = 0;
        assert(s@.subrange(0, s@.len() as int) =~= s@);
        while i < s.len()
            invariant
                i <= s@.len(),
                self.wf(sym@, out@),
                out@.len() == c.cap,
                self.base_of() == c.base,
                c == ctx_of(*old(self), sym@, old(out)@),
                st0 == old(self).st(),
                t0 == old(self).st().text,
                self.st().pos == st0.pos,
                st0.bad ==> self.st().bad,
                !st0.bad ==> !self.st().bad && emit(c, st0, s@) == emit(
                    c,
                    self.st(),
                    s@.subrange(i as int, s@.len() as int),
                ),
                t0.len() <= self.text@.len(),
                self.text@.subrange(0, t0.len() as int) == t0,
            decreases s@.len() - i,
        {
            let ghost before = self.st();
            let ghost tb = self.text@;
            self.putc(sym, out, s[i]);
            assert(self.text@.subrange(0, t0.len() as int) =~= self.text@.subrange(
                0,
                tb.len() as int,
            ).subrange(0, t0.len() as int));
            if self.bad {
                proof {
                    if !st0.bad {
                        let rest = s@.subrange(i as int, s@.len() as int);
                        assert(rest.drop_first() =~= s@.subrange(i + 1, s@.len() as int));
                        lemma_emit_bad(c, putc(c, before, s@[i as int]), rest.drop_first());
                    }
                }
                return;
            }
            proof {
                let rest = s@.subrange(i as int, s@.len() as int);
                assert(rest.drop_first() =~= s@.subrange(i + 1, s@.len() as int));
            }
            i = i + 1;
        }
        assert(s@.subrange(i as int, s@.len() as int) =~= Seq::<u8>::empty());
    }

    /// The byte at the cursor, or 0 past the end.
    fn peek(&self, sym: &[u8]) -> (b: u8)
        requires
            self.pos <= sym@.len(),
        ensures
            b == peek(sym@, self.st()),
            b != 0 ==> self.pos < sym.len(),
            sym@.len() == sym.len(),
            self.pos < sym@.len() ==> b == sym@[self.pos as int],
    {
        if self.pos < sym.len() {
            sym[self.pos]
        } else {
            0
        }
    }
}

/// Only the cursor and the failure flag changed, and a failure stays.
pub open spec fn moved(old: Demangler, new: Demangler) -> bool {
    &&& new.base_of() == old.base_of()
    &&& new.olen_of() == old.olen_of()
    &&& new.st().text == old.st().text
    &&& (old.st().bad ==> new.st().bad)
}

impl Demangler {
    /// Takes the byte at the cursor; a 0 byte (or the end) fails.
    fn next(&mut self, sym: &[u8]) -> (b: u8)
        requires
            old(self).pos <= sym@.len(),
        ensures
            moved(*old(self), *final(self)),
            final(self).pos <= sym@.len(),
            !old(self).bad ==> (final(self).st(), b) == next(sym@, old(self).st()),
            b == peek(sym@, old(self).st()),
            b != 0 ==> final(self).pos == old(self).pos + 1,
            b == 0 ==> final(self).pos == old(self).pos && final(self).bad,
    {
        let b = self.peek(sym);
        if b == 0 {
            self.bad = true;
        } else {
            self.pos = self.pos + 1;
        }
        b
    }

    /// Takes `want`, or fails.
    fn eat(&mut self, sym: &[u8], want: u8)
        requires
            old(self).pos <= sym@.len(),
            want != 0,
        ensures
            moved(*old(self), *final(self)),
            final(self).pos <= sym@.len(),
            !old(self).bad ==> final(self).st() == eat(sym@, old(self).st(), want),
    {
        if self.peek(sym) == want {
            self.pos = self.pos + 1;
        } else {
            self.bad = true;
        }
    }

    /// A base-62 number: `_` is 0, digits then `_` are their value plus
    /// one.
    fn base62(&mut self, sym: &[u8]) -> (v: u64)
        requires
            old(self).pos <= sym@.len(),
        ensures
            moved(*old(self), *final(self)),
            final(self).pos <= sym@.len(),
            !old(self).bad ==> (final(self).st(), v as int) == base62(sym@, old(self).st()),
    {
        if self.peek(sym) == 95 {
            self.pos = self.pos + 1;
            return 0;
        }
        let ghost st0 = self.st();
        let ghost old_self = *self;
        let mut v: u64 = 0;
        while self.pos < sym.len()
            invariant
                self.pos <= sym@.len(),
                moved(old_self, *self),
                old_self == *old(self),
                st0 == old(self).st(),
                !st0.bad ==> !self.bad && base62(sym@, st0) == b62_loop(sym@, self.st(), v as int),
                st0.bad ==> self.bad,
            decreases sym@.len() - self.pos,
        {
            let ghost before = self.st();
            let b = self.next(sym);
            if self.bad {
                return 0;
            }
            let d: u64 = if 48 <= b && b <= 57 {
                (b - 48) as u64
            } else if 97 <= b && b <= 122 {
                (b - 97 + 10) as u64
            } else if 65 <= b && b <= 90 {
                (b - 65 + 36) as u64
            } else if b == 95 {
                if v == u64::MAX {
                    self.bad = true;
                    return 0;
                }
                return v + 1;
            } else {
                self.bad = true;
                return 0;
            };
            assert(d == b62_digit(b));
            match v.checked_mul(62) {
                Some(m) => match m.checked_add(d) {
                    Some(x) => {
                        v = x;
                    },
                    None => {
                        self.bad = true;
                        return 0;
                    },
                },
                None => {
                    self.bad = true;
                    return 0;
                },
            }
        }
        self.bad = true;
        0
    }

    /// A decimal length; a leading `0` ends it.
    fn decimal(&mut self, sym: &[u8]) -> (v: usize)
        requires
            old(self).pos <= sym@.len(),
        ensures
            moved(*old(self), *final(self)),
            final(self).pos <= sym@.len(),
            !old(self).bad ==> (final(self).st(), v as int) == decimal(sym@, old(self).st()),
    {
        let p = self.peek(sym);
        if !(48 <= p && p <= 57) {
            self.bad = true;
            return 0;
        }
        let first = (self.next(sym) - 48) as usize;
        assert(self.pos == old(self).pos + 1);
        if first == 0 {
            return 0;
        }
        let ghost st0 = old(self).st();
        let ghost old_self = *old(self);
        let mut v: usize = first;
        loop
            invariant
                self.pos <= sym@.len(),
                moved(old_self, *self),
                old_self == *old(self),
                st0 == old(self).st(),
                !st0.bad ==> !self.bad && decimal(sym@, st0) == dec_loop(sym@, self.st(), v as int),
                st0.bad ==> self.bad,
            ensures
                self.pos <= sym@.len(),
                moved(old_self, *self),
                !st0.bad ==> !self.bad && decimal(sym@, st0) == dec_loop(sym@, self.st(), v as int),
                st0.bad ==> self.bad,
                !is_digit(peek(sym@, self.st())),
            decreases sym@.len() - self.pos,
        {
            let p = self.peek(sym);
            if !(48 <= p && p <= 57) {
                break;
            }
            let c = (self.next(sym) - 48) as usize;
            match v.checked_mul(10) {
                Some(m) => match m.checked_add(c) {
                    Some(x) => {
                        v = x;
                    },
                    None => {
                        self.bad = true;
                        return 0;
                    },
                },
                None => {
                    self.bad = true;
                    return 0;
                },
            }
        }
        v
    }

    /// `s<base62>`: the number plus one, or 0 when absent.
    fn disambiguator(&mut self, sym: &[u8]) -> (v: u64)
        requires
            old(self).pos <= sym@.len(),
        ensures
            moved(*old(self), *final(self)),
            final(self).pos <= sym@.len(),
            !old(self).bad ==> (final(self).st(), v as int) == disambiguator(sym@, old(self).st()),
    {
        if self.peek(sym) == 115 {
            self.pos = self.pos + 1;
            let v = self.base62(sym);
            if v == u64::MAX {
                self.bad = true;
                return 0;
            }
            return v + 1;
        }
        0
    }
}

/// Two steps in a row are one step; `g` is the meaning of the second
/// step from where the first one ended, and `w2` what that is from the
/// start.
pub proof fn lemma_then(
    a: Demangler,
    b: Demangler,
    c: Demangler,
    sym: Seq<u8>,
    oa: Seq<u8>,
    ob: Seq<u8>,
    oc: Seq<u8>,
    w1: VS,
    g: VS,
    w2: VS,
)
    requires
        stepped(a, b, sym, oa, ob, w1),
        stepped(b, c, sym, ob, oc, g),
        !w1.bad ==> g == w2,
        w1.bad ==> w2.bad,
    ensures
        stepped(a, c, sym, oa, oc, w2),
{
    let ta = a.st().text;
    let tb = b.st().text;
    let tc = c.st().text;
    assert(tc.subrange(0, ta.len() as int) =~= tc.subrange(0, tb.len() as int).subrange(
        0,
        ta.len() as int,
    ));
}

/// Printing `a` then `b` prints `a + b`.
pub proof fn lemma_emit_concat(c: Ctx, st: VS, a: Seq<u8>, b: Seq<u8>)
    ensures
        emit(c, emit(c, st, a), b) == emit(c, st, a + b),
    decreases a.len(),
{
    if st.bad {
    } else if a.len() == 0 {
        assert(a + b =~= b);
    } else {
        assert((a + b).drop_first() =~= a.drop_first() + b);
        lemma_emit_concat(c, putc(c, st, a[0]), a.drop_first(), b);
    }
}

/// Printing one byte is `putc`.
pub proof fn lemma_emit_one(c: Ctx, st: VS, b: u8)
    ensures
        emit(c, st, seq![b]) == putc(c, st, b),
{
    reveal_with_fuel(emit, 2);
    assert(seq![b].drop_first() =~= Seq::<u8>::empty());
}

impl Demangler {
    /// Prints the decimal `v`.
    fn emit_u64(&mut self, sym: &[u8], out: &mut [u8], v: u64)
        requires
            old(self).wf(sym@, old(out)@),
        ensures
            stepped(
                *old(self),
                *final(self),
                sym@,
                old(out)@,
                final(out)@,
                emit_u64(ctx_of(*old(self), sym@, old(out)@), old(self).st(), v as int),
            ),
            final(self).st().pos == old(self).st().pos,
        decreases v,
    {
        let ghost c = ctx_of(*self, sym@, out@);
        let ghost s0 = *self;
        let ghost o0 = out@;
        if v >= 10 {
            self.emit_u64(sym, out, v / 10);
            let ghost s1 = *self;
            let ghost o1 = out@;
            self.putc(sym, out, (48 + v % 10) as u8);
            proof {
                let w1 = emit(c, s0.st(), dec_digits((v / 10) as nat));
                lemma_emit_concat(c, s0.st(), dec_digits((v / 10) as nat), seq![(48 + v % 10) as u8]);
                lemma_emit_one(c, w1, (48 + v % 10) as u8);
                assert(dec_digits(v as nat) == dec_digits((v / 10) as nat) + seq![(48 + v % 10) as u8]);
                lemma_then(s0, s1, *self, sym@, o0, o1, out@, w1, putc(c, s1.st(), (48 + v % 10) as u8),
                    emit_u64(c, s0.st(), v as int));
            }
        } else {
            self.putc(sym, out, (48 + v) as u8);
            proof {
                lemma_emit_one(c, s0.st(), (48 + v) as u8);
            }
        }
    }

    /// Prints a lifetime: `'_` for 0, else a letter counted from the
    /// outermost of the `bound` binders in scope.
    fn lifetime(&mut self, sym: &[u8], out: &mut [u8], bound: u64, lt: u64)
        requires
            old(self).wf(sym@, old(out)@),
        ensures
            stepped(
                *old(self),
                *final(self),
                sym@,
                old(out)@,
                final(out)@,
                lifetime(
                    ctx_of(*old(self), sym@, old(out)@),
                    old(self).st(),
                    bound as int,
                    lt as int,
                ),
            ),
            final(self).st().pos == old(self).st().pos,
    {
        let ghost c = ctx_of(*self, sym@, out@);
        let ghost s0 = *self;
        let ghost o0 = out@;
        let ghost w0 = emit(c, s0.st(), seq![39u8]);
        let ghost want = lifetime(c, s0.st(), bound as int, lt as int);
        self.emit(sym, out, &[39u8]);
        assert([39u8]@ =~= seq![39u8]);
        let ghost s1 = *self;
        let ghost o1 = out@;
        if lt == 0 {
            self.emit(sym, out, &[95u8]);
            assert([95u8]@ =~= seq![95u8]);
            proof {
                lemma_then(s0, s1, *self, sym@, o0, o1, out@, w0, emit(c, s1.st(), seq![95u8]), want);
            }
            return;
        }
        if bound >= lt {
            let d = bound - lt;
            self.putc(sym, out, (97 + d % 26) as u8);
            let ghost s2 = *self;
            let ghost o2 = out@;
            let ghost w2 = putc(c, w0, (97 + d % 26) as u8);
            proof {
                lemma_then(s0, s1, s2, sym@, o0, o1, o2, w0,
                    putc(c, s1.st(), (97 + d % 26) as u8), w2);
            }
            if d >= 26 {
                self.emit_u64(sym, out, d / 26);
                proof {
                    lemma_then(s0, s2, *self, sym@, o0, o2, out@, w2,
                        emit_u64(c, s2.st(), (d / 26) as int), want);
                }
            }
        } else {
            self.bad = true;
        }
    }
}

/// A step that moves only the cursor or the failure flag is a step.
pub proof fn lemma_moved(a: Demangler, b: Demangler, sym: Seq<u8>, o: Seq<u8>, w: VS)
    requires
        a.wf(sym, o),
        b.st().pos <= sym.len(),
        moved(a, b),
        !a.st().bad ==> b.st() == w,
        a.st().bad ==> w.bad || b.st().bad,
    ensures
        stepped(a, b, sym, o, o, w) || a.st().bad,
        a.st().bad ==> stepped(a, b, sym, o, o, w),
{
    assert(b.st().text.subrange(0, a.st().text.len() as int) =~= a.st().text);
}

/// A step that moved only the cursor and failed is a step to any failed
/// state.
pub proof fn lemma_failed(a: Demangler, b: Demangler, sym: Seq<u8>, o: Seq<u8>, w: VS)
    requires
        a.wf(sym, o),
        b.st().pos <= sym.len(),
        moved(a, b),
        b.st().bad,
        !a.st().bad ==> w.bad,
    ensures
        stepped(a, b, sym, o, o, w),
{
    assert(b.st().text.subrange(0, a.st().text.len() as int) =~= a.st().text);
}

impl Demangler {
    /// `u? <decimal> _? <bytes>`: prints the bytes when `print`; a
    /// punycode name fails.
    fn ident(&mut self, sym: &[u8], out: &mut [u8], print: bool)
        requires
            old(self).wf(sym@, old(out)@),
        ensures
            stepped(
                *old(self),
                *final(self),
                sym@,
                old(out)@,
                final(out)@,
                ident(ctx_of(*old(self), sym@, old(out)@), old(self).st(), print),
            ),
    {
        let ghost c = ctx_of(*self, sym@, out@);
        let ghost s0 = *self;
        let ghost o0 = out@;
        let ghost want = ident(c, s0.st(), print);
        let puny = self.peek(sym) == 117;
        if puny {
            self.pos = self.pos + 1;
        }
        let n = self.decimal(sym);
        if self.bad {
            proof {
                lemma_moved(s0, *self, sym@, o0, want);
            }
            return;
        }
        if self.peek(sym) == 95 {
            self.pos = self.pos + 1;
        }
        if n > sym.len() - self.pos {
            self.bad = true;
            proof {
                lemma_moved(s0, *self, sym@, o0, want);
            }
            return;
        }
        if puny {
            self.bad = true;
            proof {
                lemma_moved(s0, *self, sym@, o0, want);
            }
            return;
        }
        let start = self.pos;
        self.pos = self.pos + n;
        let ghost s1 = *self;
        let ghost w1 = at(s0.st(), 0);
        if print {
            proof {
                lemma_moved(s0, s1, sym@, o0, s1.st());
            }
            self.emit(sym, out, slice_subrange(sym, start, start + n));
            proof {
                if !s0.st().bad {
                    lemma_then(s0, s1, *self, sym@, o0, o0, out@, s1.st(),
                        emit(c, s1.st(), sym@.subrange(start as int, start + n)), want);
                } else {
                    lemma_then(s0, s1, *self, sym@, o0, o0, out@, want,
                        emit(c, s1.st(), sym@.subrange(start as int, start + n)), want);
                }
            }
        } else {
            proof {
                lemma_moved(s0, *self, sym@, o0, want);
            }
        }
    }

    /// `B <base62>`: the offset a backreference points at.
    fn backref_target(&mut self, sym: &[u8]) -> (t: usize)
        requires
            old(self).pos <= sym@.len(),
            old(self).base <= sym@.len(),
        ensures
            moved(*old(self), *final(self)),
            final(self).pos <= sym@.len(),
            !final(self).bad ==> t < final(self).pos,
            !old(self).bad ==> (final(self).st(), t as int) == backref_target(
                Ctx { sym: sym@, base: old(self).base as int, cap: 0 },
                old(self).st(),
            ),
    {
        let idx = self.base62(sym);
        if self.bad {
            return 0;
        }
        let room = (sym.len() - self.base) as u64;
        if idx >= room {
            self.bad = true;
            return 0;
        }
        let t = self.base + idx as usize;
        if t >= self.pos {
            self.bad = true;
            return 0;
        }
        t
    }

    /// A reference's lifetime: printed with a space when it is named.
    fn ref_lifetime(&mut self, sym: &[u8], out: &mut [u8], bound: u64)
        requires
            old(self).wf(sym@, old(out)@),
        ensures
            stepped(
                *old(self),
                *final(self),
                sym@,
                old(out)@,
                final(out)@,
                ref_lifetime(ctx_of(*old(self), sym@, old(out)@), old(self).st(), bound as int),
            ),
    {
        let ghost c = ctx_of(*self, sym@, out@);
        let ghost s0 = *self;
        let ghost o0 = out@;
        let ghost want = ref_lifetime(c, s0.st(), bound as int);
        if self.peek(sym) != 76 {
            proof {
                lemma_moved(s0, *self, sym@, o0, want);
            }
            return;
        }
        self.pos = self.pos + 1;
        let lt = self.base62(sym);
        let ghost s1 = *self;
        let ghost w1 = base62(sym@, at(s0.st(), s0.st().pos + 1)).0;
        proof {
            lemma_moved(s0, s1, sym@, o0, w1);
        }
        if lt != 0 {
            self.lifetime(sym, out, bound, lt);
            let ghost s2 = *self;
            let ghost o2 = out@;
            let ghost w2 = lifetime(c, w1, bound as int, lt as int);
            proof {
                lemma_then(s0, s1, s2, sym@, o0, o0, o2, w1, lifetime(c, s1.st(), bound as int, lt as int), w2);
            }
            self.emit(sym, out, &[32u8]);
            assert([32u8]@ =~= seq![32u8]);
            proof {
                lemma_then(s0, s2, *self, sym@, o0, o2, out@, w2, emit(c, s2.st(), seq![32u8]), want);
            }
        }
    }
}

impl Demangler {
    /// `G <base62>`: a binder of that many lifetimes plus one, printed as
    /// `for<...> `; returns how many it introduced.
    fn push_binder(&mut self, sym: &[u8], out: &mut [u8], bound: u64) -> (n: u64)
        requires
            old(self).wf(sym@, old(out)@),
        ensures
            stepped(
                *old(self),
                *final(self),
                sym@,
                old(out)@,
                final(out)@,
                push_binder(ctx_of(*old(self), sym@, old(out)@), old(self).st(), bound as int).0,
            ),
            !old(self).bad ==> n as int == push_binder(
                ctx_of(*old(self), sym@, old(out)@),
                old(self).st(),
                bound as int,
            ).1,
            bound + n <= u64::MAX,
    {
        let ghost c = ctx_of(*self, sym@, out@);
        let ghost s0 = *self;
        let ghost o0 = out@;
        let ghost want = push_binder(c, s0.st(), bound as int).0;
        if self.peek(sym) != 71 {
            proof {
                lemma_moved(s0, *self, sym@, o0, want);
            }
            return 0;
        }
        self.pos = self.pos + 1;
        let v = self.base62(sym);
        if self.bad {
            proof {
                lemma_moved(s0, *self, sym@, o0, want);
            }
            return 0;
        }
        if v == u64::MAX || v + 1 > u64::MAX - bound {
            self.bad = true;
            proof {
                lemma_moved(s0, *self, sym@, o0, want);
            }
            return 0;
        }
        let n = v + 1;
        let ghost s1 = *self;
        let ghost w1 = base62(sym@, at(s0.st(), s0.st().pos + 1)).0;
        proof {
            lemma_moved(s0, s1, sym@, o0, w1);
        }
        self.emit(sym, out, &[102u8, 111u8, 114u8, 60u8]);
        assert([102u8, 111u8, 114u8, 60u8]@ =~= seq![102u8, 111u8, 114u8, 60u8]);
        let ghost s2 = *self;
        let ghost o2 = out@;
        let ghost w2 = emit(c, w1, seq![102u8, 111u8, 114u8, 60u8]);
        proof {
            lemma_then(s0, s1, s2, sym@, o0, o0, o2, w1,
                emit(c, s1.st(), seq![102u8, 111u8, 114u8, 60u8]), w2);
        }
        let ghost w3 = binder_loop(c, w2, bound as int, 0, n as int);
        let mut i: u64 = 0;
        while i < n && !self.bad
            invariant
                self.wf(sym@, out@),
                out@.len() == o0.len(),
                c == ctx_of(s2, sym@, o2),
                s0 == *old(self),
                o0 == old(out)@,
                i <= n,
                n == v + 1,
                bound + n <= u64::MAX,
                stepped(s0, s2, sym@, o0, o2, w2),
                w3 == binder_loop(c, w2, bound as int, 0, n as int),
                self.base_of() == s0.base_of(),
                s2.st().text.len() <= self.st().text.len(),
                self.st().text.subrange(0, s2.st().text.len() as int) == s2.st().text,
                s0.st().text.len() <= s2.st().text.len(),
                s2.st().text.subrange(0, s0.st().text.len() as int) == s0.st().text,
                s0.st().bad ==> self.bad,
                !s0.st().bad && !w2.bad ==> (self.bad ==> w3.bad) && (!self.bad ==> binder_loop(
                    c,
                    self.st(),
                    bound as int,
                    i as int,
                    n as int,
                ) == w3),
                !s0.st().bad && w2.bad ==> self.bad,
            decreases n - i,
        {
            let ghost sb = *self;
            let ghost ob = out@;
            if i > 0 {
                self.emit(sym, out, &[44u8, 32u8]);
                assert([44u8, 32u8]@ =~= seq![44u8, 32u8]);
            }
            let ghost sm = *self;
            let ghost om = out@;
            self.lifetime(sym, out, bound + i + 1, 1);
            proof {
                let tb = sb.st().text;
                let tm = sm.st().text;
                let t2 = s2.st().text;
                let tn = self.st().text;
                assert(tn.subrange(0, t2.len() as int) =~= tn.subrange(0, tm.len() as int).subrange(0, t2.len() as int));
                assert(tm.subrange(0, t2.len() as int) =~= tm.subrange(0, tb.len() as int).subrange(0, t2.len() as int));
            }
            proof {
                if !s0.st().bad && !w2.bad && !sb.st().bad {
                    let st1 = if i > 0 {
                        emit(c, sb.st(), seq![44u8, 32u8])
                    } else {
                        sb.st()
                    };
                    let st2 = lifetime(c, st1, bound + i + 1, 1);
                    assert(binder_loop(c, sb.st(), bound as int, i as int, n as int) == binder_loop(
                        c,
                        st2,
                        bound as int,
                        i + 1,
                        n as int,
                    ));
                    assert(i == 0 ==> sm == sb);
                    assert(c == ctx_of(sm, sym@, om));
                    if st2.bad {
                        lemma_binder_bad(c, st2, bound as int, i + 1, n as int);
                    }
                    if st1.bad {
                        assert(st2 == st1);
                    }
                }
            }
            i = i + 1;
        }
        let ghost s3 = *self;
        let ghost o3 = out@;
        proof {
            assert(stepped(s0, s3, sym@, o0, o3, w3)) by {
                let t0 = s0.st().text;
                let t2 = s2.st().text;
                let t3 = s3.st().text;
                assert(t3.subrange(0, t0.len() as int) =~= t3.subrange(0, t2.len() as int).subrange(0, t0.len() as int));
                if !s0.st().bad && !w2.bad && !s3.st().bad {
                    assert(binder_loop(c, s3.st(), bound as int, i as int, n as int) == s3.st());
                }
                if !s0.st().bad && w2.bad {
                    lemma_binder_bad(c, w2, bound as int, 0, n as int);
                }
            }
        }
        self.emit(sym, out, &[62u8, 32u8]);
        assert([62u8, 32u8]@ =~= seq![62u8, 32u8]);
        proof {
            lemma_then(s0, s3, *self, sym@, o0, o3, out@, w3, emit(c, s3.st(), seq![62u8, 32u8]), want);
        }
        n
    }
}

/// The binder loop on a failed state changes nothing.
pub proof fn lemma_binder_bad(c: Ctx, st: VS, bound: int, i: int, n: int)
    requires
        st.bad,
    ensures
        binder_loop(c, st, bound, i, n) == st,
{
}

impl Demangler {
    /// The hex digits of a const's value up to the `_`, wrapping at 64
    /// bits; a byte that is not a hex digit fails.
    fn hex_value(&mut self, sym: &[u8]) -> (v: u64)
        requires
            old(self).pos <= sym@.len(),
        ensures
            moved(*old(self), *final(self)),
            final(self).pos <= sym@.len(),
            !old(self).bad ==> final(self).st().bad == hex_loop(sym@, old(self).st(), 0).0.bad,
            !old(self).bad && !final(self).st().bad ==> (final(self).st(), v as int) == hex_loop(
                sym@,
                old(self).st(),
                0,
            ),
    {
        let ghost st0 = self.st();
        let ghost s0 = *self;
        let mut v: u64 = 0;
        while self.peek(sym) != 95 && !self.bad
            invariant
                self.pos <= sym@.len(),
                moved(s0, *self),
                s0 == *old(self),
                st0 == old(self).st(),
                st0.bad ==> self.bad,
                !st0.bad ==> !self.bad,
                !st0.bad && !self.bad ==> hex_loop(sym@, st0, 0) == hex_loop(sym@, self.st(), v as int),
            decreases sym@.len() - self.pos,
        {
            let b = self.next(sym);
            let d: u64 = if 48 <= b && b <= 57 {
                (b - 48) as u64
            } else if 97 <= b && b <= 102 {
                (b - 97 + 10) as u64
            } else {
                self.bad = true;
                return 0;
            };
            if self.bad {
                return 0;
            }
            assert(d == hex_digit(b));
            let low = v & 0x0fff_ffff_ffff_ffff;
            assert(low == v % 0x1000_0000_0000_0000 && low < 0x1000_0000_0000_0000) by (bit_vector)
                requires
                    low == v & 0x0fff_ffff_ffff_ffff,
            ;
            v = low * 16 + d;
        }
        v
    }

    /// A const generic argument: an integer or a bool, or a
    /// backreference to one.
    fn konst(&mut self, sym: &[u8], out: &mut [u8], fuel: usize)
        requires
            old(self).wf(sym@, old(out)@),
        ensures
            stepped(
                *old(self),
                *final(self),
                sym@,
                old(out)@,
                final(out)@,
                konst(ctx_of(*old(self), sym@, old(out)@), old(self).st(), fuel as int),
            ),
        decreases fuel,
    {
        let ghost c = ctx_of(*self, sym@, out@);
        let ghost s0 = *self;
        let ghost o0 = out@;
        let ghost want = konst(c, s0.st(), fuel as int);
        let tag = self.next(sym);
        if self.bad {
            proof {
                lemma_moved(s0, *self, sym@, o0, want);
            }
            return;
        }
        let ghost s1 = *self;
        proof {
            lemma_moved(s0, s1, sym@, o0, s1.st());
        }
        if tag == 97 || tag == 98 || tag == 99 || tag == 100 || tag == 101 || tag == 102 || tag
            == 104 || tag == 105 || tag == 106 || tag == 108 || tag == 109 || tag == 110 || tag
            == 111 || tag == 115 || tag == 116 || tag == 117 || tag == 118 || tag == 120 || tag
            == 121 || tag == 122 {
            let ghost w2 = if peek(sym@, s1.st()) == 110 {
                emit(c, at(s1.st(), s1.st().pos + 1), seq![45u8])
            } else {
                s1.st()
            };
            if self.peek(sym) == 110 {
                self.pos = self.pos + 1;
                let ghost sp = *self;
                proof {
                    lemma_moved(s1, sp, sym@, o0, sp.st());
                    lemma_then(s0, s1, sp, sym@, o0, o0, o0, s1.st(), sp.st(), sp.st());
                }
                self.emit(sym, out, &[45u8]);
                assert([45u8]@ =~= seq![45u8]);
                proof {
                    lemma_then(s0, sp, *self, sym@, o0, o0, out@, sp.st(), emit(c, sp.st(), seq![45u8]), w2);
                }
            }
            let ghost s2 = *self;
            let ghost o2 = out@;
            let v = self.hex_value(sym);
            let ghost w3 = hex_loop(sym@, w2, 0);
            let ghost s3 = *self;
            if self.bad {
                proof {
                    lemma_failed(s2, s3, sym@, o2, hex_loop(sym@, s2.st(), 0).0);
                    lemma_then(s0, s2, s3, sym@, o0, o2, o2, w2, hex_loop(sym@, s2.st(), 0).0, want);
                }
                return;
            }
            proof {
                lemma_moved(s2, s3, sym@, o2, w3.0);
                lemma_then(s0, s2, s3, sym@, o0, o2, o2, w2, hex_loop(sym@, s2.st(), 0).0, w3.0);
            }
            self.eat(sym, 95);
            let ghost w4 = eat(sym@, w3.0, 95);
            let ghost s4 = *self;
            proof {
                lemma_moved(s3, s4, sym@, o2, eat(sym@, s3.st(), 95));
                lemma_then(s0, s3, s4, sym@, o0, o2, o2, w3.0, eat(sym@, s3.st(), 95), w4);
            }
            if tag == 98 {
                if v == 0 {
                    self.emit(sym, out, &[102u8, 97u8, 108u8, 115u8, 101u8]);
                    assert([102u8, 97u8, 108u8, 115u8, 101u8]@ =~= seq![102u8, 97u8, 108u8, 115u8, 101u8]);
                    proof {
                        lemma_then(s0, s4, *self, sym@, o0, o2, out@, w4,
                            emit(c, s4.st(), seq![102u8, 97u8, 108u8, 115u8, 101u8]), want);
                    }
                } else {
                    self.emit(sym, out, &[116u8, 114u8, 117u8, 101u8]);
                    assert([116u8, 114u8, 117u8, 101u8]@ =~= seq![116u8, 114u8, 117u8, 101u8]);
                    proof {
                        lemma_then(s0, s4, *self, sym@, o0, o2, out@, w4,
                            emit(c, s4.st(), seq![116u8, 114u8, 117u8, 101u8]), want);
                    }
                }
            } else {
                self.emit_u64(sym, out, v);
                proof {
                    lemma_then(s0, s4, *self, sym@, o0, o2, out@, w4,
                        emit_u64(c, s4.st(), v as int), want);
                }
            }
        } else if tag == 66 {
            let target = self.backref_target(sym);
            let ghost s2 = *self;
            if self.bad {
                proof {
                    lemma_moved(s0, s2, sym@, o0, want);
                }
                return;
            }
            if fuel == 0 {
                self.bad = true;
                proof {
                    lemma_moved(s0, *self, sym@, o0, want);
                }
                return;
            }
            let save = self.pos;
            self.pos = target;
            let ghost s3 = *self;
            proof {
                lemma_moved(s0, s3, sym@, o0, s3.st());
            }
            self.konst(sym, out, fuel - 1);
            let ghost s4 = *self;
            let ghost o4 = out@;
            proof {
                lemma_then(s0, s3, s4, sym@, o0, o0, o4, s3.st(), konst(c, s3.st(), fuel - 1),
                    konst(c, s3.st(), fuel - 1));
            }
            self.pos = save;
            proof {
                lemma_moved(s4, *self, sym@, o4, at(s4.st(), save as int));
                lemma_then(s0, s4, *self, sym@, o0, o4, o4, konst(c, s3.st(), fuel - 1),
                    at(s4.st(), save as int), want);
            }
        } else {
            self.bad = true;
            proof {
                lemma_moved(s0, *self, sym@, o0, want);
            }
        }
    }
}

/// A step that moved only the cursor, to `p`, is that move.
pub proof fn lemma_at(a: Demangler, b: Demangler, sym: Seq<u8>, o: Seq<u8>)
    requires
        a.wf(sym, o),
        b.st().pos <= sym.len(),
        moved(a, b),
        b.st().bad == a.st().bad,
    ensures
        stepped(a, b, sym, o, o, at(a.st(), b.st().pos)),
{
    assert(b.st().text.subrange(0, a.st().text.len() as int) =~= a.st().text);
}

impl Demangler {
    /// Prints the name of the basic type tagged `b`; false when `b` tags
    /// none.
    fn emit_prim(&mut self, sym: &[u8], out: &mut [u8], b: u8) -> (is_prim: bool)
        requires
            old(self).wf(sym@, old(out)@),
        ensures
            is_prim == prim(b) is Some,
            is_prim ==> stepped(
                *old(self),
                *final(self),
                sym@,
                old(out)@,
                final(out)@,
                emit(ctx_of(*old(self), sym@, old(out)@), old(self).st(), prim(b)->0),
            ),
            !is_prim ==> *final(self) == *old(self) && final(out)@ == old(out)@,
            final(self).st().pos == old(self).st().pos,
    {
        if b == 97 {
            self.emit(sym, out, &[105u8, 56u8]);
            assert([105u8, 56u8]@ =~= seq![105u8, 56u8]);
        } else if b == 98 {
            self.emit(sym, out, &[98u8, 111u8, 111u8, 108u8]);
            assert([98u8, 111u8, 111u8, 108u8]@ =~= seq![98u8, 111u8, 111u8, 108u8]);
        } else if b == 99 {
            self.emit(sym, out, &[99u8, 104u8, 97u8, 114u8]);
            assert([99u8, 104u8, 97u8, 114u8]@ =~= seq![99u8, 104u8, 97u8, 114u8]);
        } else if b == 100 {
            self.emit(sym, out, &[102u8, 54u8, 52u8]);
            assert([102u8, 54u8, 52u8]@ =~= seq![102u8, 54u8, 52u8]);
        } else if b == 101 {
            self.emit(sym, out, &[115u8, 116u8, 114u8]);
            assert([115u8, 116u8, 114u8]@ =~= seq![115u8, 116u8, 114u8]);
        } else if b == 102 {
            self.emit(sym, out, &[102u8, 51u8, 50u8]);
            assert([102u8, 51u8, 50u8]@ =~= seq![102u8, 51u8, 50u8]);
        } else if b == 104 {
            self.emit(sym, out, &[117u8, 56u8]);
            assert([117u8, 56u8]@ =~= seq![117u8, 56u8]);
        } else if b == 105 {
            self.emit(sym, out, &[105u8, 115u8, 105u8, 122u8, 101u8]);
            assert([105u8, 115u8, 105u8, 122u8, 101u8]@ =~= seq![105u8, 115u8, 105u8, 122u8, 101u8]);
        } else if b == 106 {
            self.emit(sym, out, &[117u8, 115u8, 105u8, 122u8, 101u8]);
            assert([117u8, 115u8, 105u8, 122u8, 101u8]@ =~= seq![117u8, 115u8, 105u8, 122u8, 101u8]);
        } else if b == 108 {
            self.emit(sym, out, &[105u8, 51u8, 50u8]);
            assert([105u8, 51u8, 50u8]@ =~= seq![105u8, 51u8, 50u8]);
        } else if b == 109 {
            self.emit(sym, out, &[117u8, 51u8, 50u8]);
            assert([117u8, 51u8, 50u8]@ =~= seq![117u8, 51u8, 50u8]);
        } else if b == 110 {
            self.emit(sym, out, &[105u8, 49u8, 50u8, 56u8]);
            assert([105u8, 49u8, 50u8, 56u8]@ =~= seq![105u8, 49u8, 50u8, 56u8]);
        } else if b == 111 {
            self.emit(sym, out, &[117u8, 49u8, 50u8, 56u8]);
            assert([117u8, 49u8, 50u8, 56u8]@ =~= seq![117u8, 49u8, 50u8, 56u8]);
        } else if b == 115 {
            self.emit(sym, out, &[105u8, 49u8, 54u8]);
            assert([105u8, 49u8, 54u8]@ =~= seq![105u8, 49u8, 54u8]);
        } else if b == 116 {
            self.emit(sym, out, &[117u8, 49u8, 54u8]);
            assert([117u8, 49u8, 54u8]@ =~= seq![117u8, 49u8, 54u8]);
        } else if b == 117 {
            self.emit(sym, out, &[40u8, 41u8]);
            assert([40u8, 41u8]@ =~= seq![40u8, 41u8]);
        } else if b == 118 {
            self.emit(sym, out, &[46u8, 46u8, 46u8]);
            assert([46u8, 46u8, 46u8]@ =~= seq![46u8, 46u8, 46u8]);
        } else if b == 120 {
            self.emit(sym, out, &[105u8, 54u8, 52u8]);
            assert([105u8, 54u8, 52u8]@ =~= seq![105u8, 54u8, 52u8]);
        } else if b == 121 {
            self.emit(sym, out, &[117u8, 54u8, 52u8]);
            assert([117u8, 54u8, 52u8]@ =~= seq![117u8, 54u8, 52u8]);
        } else if b == 122 {
            self.emit(sym, out, &[33u8]);
            assert([33u8]@ =~= seq![33u8]);
        } else if b == 112 {
            self.emit(sym, out, &[95u8]);
            assert([95u8]@ =~= seq![95u8]);
        } else {
            return false;
        }
        true
    }
}

/// Two steps in a row keep what was printed before them.
pub proof fn lemma_chain(
    a: Demangler,
    b: Demangler,
    c: Demangler,
    sym: Seq<u8>,
    oa: Seq<u8>,
    ob: Seq<u8>,
    oc: Seq<u8>,
    wb: VS,
    wc: VS,
)
    requires
        stepped(a, b, sym, oa, ob, wb),
        stepped(b, c, sym, ob, oc, wc),
    ensures
        stepped(a, c, sym, oa, oc, c.st()),
{
    let ta = a.st().text;
    let tb = b.st().text;
    let tc = c.st().text;
    assert(tc.subrange(0, ta.len() as int) =~= tc.subrange(0, tb.len() as int).subrange(
        0,
        ta.len() as int,
    ));
}

/// A step that ended failed, where failure was wanted.
pub proof fn lemma_bad_end(
    a: Demangler,
    b: Demangler,
    sym: Seq<u8>,
    oa: Seq<u8>,
    ob: Seq<u8>,
    w: VS,
    want: VS,
)
    requires
        stepped(a, b, sym, oa, ob, w),
        b.st().bad,
        want.bad,
    ensures
        stepped(a, b, sym, oa, ob, want),
{
}

/// A step that moved only the cursor, then another step.
pub proof fn lemma_move_then(
    s0: Demangler,
    sa: Demangler,
    sb: Demangler,
    sym: Seq<u8>,
    o0: Seq<u8>,
    oa: Seq<u8>,
    w: VS,
    g: VS,
    w2: VS,
)
    requires
        stepped(s0, sa, sym, o0, oa, w),
        sb.st().pos <= sym.len(),
        moved(sa, sb),
        !sa.st().bad ==> sb.st() == g,
        !w.bad ==> g == w2,
        w.bad ==> w2.bad,
    ensures
        stepped(s0, sb, sym, o0, oa, w2),
{
    assert(sb.st().text.subrange(0, sa.st().text.len() as int) =~= sa.st().text);
    lemma_then(s0, sa, sb, sym, o0, oa, oa, w, g, w2);
}

impl Demangler {
    /// Generic arguments up to the `E`, separated by `, `.
    fn args_loop(&mut self, sym: &[u8], out: &mut [u8], depth: u32, bound: u64)
        requires
            old(self).wf(sym@, old(out)@),
            depth <= MAX_DEPTH,
        ensures
            stepped(
                *old(self),
                *final(self),
                sym@,
                old(out)@,
                final(out)@,
                args(ctx_of(*old(self), sym@, old(out)@), old(self).st(), depth as int, bound as int, true),
            ),
        decreases 65 - depth, 2int, 0int,
    {
        let ghost c = ctx_of(*self, sym@, out@);
        let ghost s0 = *self;
        let ghost o0 = out@;
        let ghost target = args(c, s0.st(), depth as int, bound as int, true);
        if self.bad {
            proof {
                lemma_moved(s0, *self, sym@, o0, target);
            }
            return;
        }
        let mut first = true;
        proof {
            lemma_moved(s0, *self, sym@, o0, s0.st());
        }
        loop
            invariant_except_break
                !self.bad ==> args(c, self.st(), depth as int, bound as int, first) == target,
            invariant
                depth <= MAX_DEPTH,
                c == ctx_of(s0, sym@, o0),
                s0 == *old(self),
                o0 == old(out)@,
                !s0.st().bad,
                target == args(c, s0.st(), depth as int, bound as int, true),
                stepped(s0, *self, sym@, o0, out@, self.st()),
                self.bad ==> target.bad,
            ensures
                stepped(s0, *self, sym@, o0, out@, self.st()),
                self.bad ==> target.bad,
                !self.bad ==> self.st() == target,
            decreases sym@.len() - self.pos,
        {
            if self.bad || self.peek(sym) == 69 {
                break;
            }
            let before = self.pos;
            let ghost sb = *self;
            let ghost ob = out@;
            let ghost st1 = if first {
                sb.st()
            } else {
                emit(c, sb.st(), seq![44u8, 32u8])
            };
            if !first {
                self.emit(sym, out, &[44u8, 32u8]);
                assert([44u8, 32u8]@ =~= seq![44u8, 32u8]);
                proof {
                    lemma_chain(s0, sb, *self, sym@, o0, ob, out@, sb.st(), emit(c, sb.st(), seq![44u8, 32u8]));
                }
            }
            let ghost sm = *self;
            let ghost om = out@;
            proof {
                if first {
                    assert(sm == sb);
                }
            }
            self.generic_arg(sym, out, depth, bound);
            proof {
                lemma_chain(s0, sm, *self, sym@, o0, om, out@, sm.st(),
                    generic_arg(c, sm.st(), depth as int, bound as int));
                let st2 = generic_arg(c, st1, depth as int, bound as int);
                assert(args(c, sb.st(), depth as int, bound as int, first) == if st2.bad || !advanced(c, sb.st(), st2) {
                    st2
                } else {
                    args(c, st2, depth as int, bound as int, false)
                });
            }
            first = false;
            if self.bad {
                break;
            }
            if self.pos <= before {
                break;
            }
        }
    }

    /// A generic argument: lifetime, const or type.
    fn generic_arg(&mut self, sym: &[u8], out: &mut [u8], depth: u32, bound: u64)
        requires
            old(self).wf(sym@, old(out)@),
            depth <= MAX_DEPTH,
        ensures
            stepped(
                *old(self),
                *final(self),
                sym@,
                old(out)@,
                final(out)@,
                generic_arg(ctx_of(*old(self), sym@, old(out)@), old(self).st(), depth as int, bound as int),
            ),
        decreases 65 - depth, 1int, 0int,
    {
        let ghost c = ctx_of(*self, sym@, out@);
        let ghost s0 = *self;
        let ghost o0 = out@;
        let ghost want = generic_arg(c, s0.st(), depth as int, bound as int);
        if self.bad {
            proof {
                lemma_moved(s0, *self, sym@, o0, want);
            }
            return;
        }
        let p = self.peek(sym);
        if p == 76 {
            self.pos = self.pos + 1;
            let lt = self.base62(sym);
            let ghost s1 = *self;
            let ghost w1 = base62(sym@, at(s0.st(), s0.st().pos + 1)).0;
            proof {
                lemma_moved(s0, s1, sym@, o0, w1);
            }
            self.lifetime(sym, out, bound, lt);
            proof {
                lemma_then(s0, s1, *self, sym@, o0, o0, out@, w1,
                    lifetime(c, s1.st(), bound as int, lt as int), want);
            }
        } else if p == 75 {
            self.pos = self.pos + 1;
            let ghost s1 = *self;
            proof {
                lemma_at(s0, s1, sym@, o0);
            }
            self.konst(sym, out, sym.len());
            proof {
                lemma_then(s0, s1, *self, sym@, o0, o0, out@, s1.st(),
                    konst(c, s1.st(), sym@.len() as int), want);
            }
        } else {
            self.ty(sym, out, depth, bound);
        }
    }

    /// `impl-path`: a disambiguator and a path whose printed name is
    /// dropped again.
    fn impl_path(&mut self, sym: &[u8], out: &mut [u8], depth: u32, bound: u64)
        requires
            old(self).wf(sym@, old(out)@),
            depth <= MAX_DEPTH,
        ensures
            stepped(
                *old(self),
                *final(self),
                sym@,
                old(out)@,
                final(out)@,
                impl_path(ctx_of(*old(self), sym@, old(out)@), old(self).st(), depth as int, bound as int),
            ),
        decreases 65 - depth, 1int, 0int,
    {
        let ghost c = ctx_of(*self, sym@, out@);
        let ghost s0 = *self;
        let ghost o0 = out@;
        let ghost want = impl_path(c, s0.st(), depth as int, bound as int);
        if self.bad {
            proof {
                lemma_moved(s0, *self, sym@, o0, want);
            }
            return;
        }
        let _ = self.disambiguator(sym);
        let ghost s1 = *self;
        let ghost w1 = disambiguator(sym@, s0.st()).0;
        proof {
            lemma_moved(s0, s1, sym@, o0, w1);
        }
        let save_olen = self.olen;
        let ghost save_text = self.text@;
        self.path(sym, out, depth, bound, false);
        let ghost s2 = *self;
        let ghost o2 = out@;
        proof {
            lemma_then(s0, s1, s2, sym@, o0, o0, o2, w1, path(c, s1.st(), depth as int, bound as int, false),
                path(c, w1, depth as int, bound as int, false));
        }
        self.olen = save_olen;
        self.text = Ghost(self.text@.subrange(0, save_text.len() as int));
        proof {
            let t2 = s2.st().text;
            assert(t2.subrange(0, save_text.len() as int) =~= save_text);
            assert(self.text@.subrange(0, s0.st().text.len() as int) =~= s0.st().text) by {
                assert(self.text@.subrange(0, s0.st().text.len() as int) =~= t2.subrange(0, s0.st().text.len() as int));
            }
            if o0.len() > 0 {
                assert(out@.subrange(0, save_olen as int) =~= self.text@) by {
                    assert(out@.subrange(0, save_olen as int) =~= out@.subrange(0, s2.olen_of()).subrange(0, save_olen as int));
                }
            }
        }
    }
}

/// `t` from `save` on, with the `_` of `out[..i]` already turned into
/// `-`.
pub open spec fn abi_partial(t: Seq<u8>, save: int, i: int) -> Seq<u8> {
    abi_fix(t, save).subrange(0, i) + t.subrange(i, t.len() as int)
}

impl Demangler {
    /// The ABI of a function type after `K`: `C`, or a name whose `_`
    /// are printed as `-`.
    fn abi(&mut self, sym: &[u8], out: &mut [u8])
        requires
            old(self).wf(sym@, old(out)@),
        ensures
            stepped(
                *old(self),
                *final(self),
                sym@,
                old(out)@,
                final(out)@,
                abi(ctx_of(*old(self), sym@, old(out)@), old(self).st()),
            ),
    {
        let ghost c = ctx_of(*self, sym@, out@);
        let ghost s0 = *self;
        let ghost o0 = out@;
        let ghost want = abi(c, s0.st());
        if self.bad {
            proof {
                lemma_moved(s0, *self, sym@, o0, want);
            }
            return;
        }
        if self.peek(sym) == 67 {
            self.pos = self.pos + 1;
            let ghost s1 = *self;
            proof {
                lemma_at(s0, s1, sym@, o0);
            }
            self.emit(sym, out, &[67u8]);
            assert([67u8]@ =~= seq![67u8]);
            proof {
                lemma_then(s0, s1, *self, sym@, o0, o0, out@, s1.st(), emit(c, s1.st(), seq![67u8]), want);
            }
            return;
        }
        let save = self.olen;
        let ghost save_len = self.text@.len() as int;
        self.ident(sym, out, true);
        let ghost s1 = *self;
        let ghost o1 = out@;
        if out.len() != 0 {
            let ghost t = self.text@;
            let mut i = save;
            assert(abi_partial(t, save_len, save as int) =~= t) by {
                assert(abi_fix(t, save_len).subrange(0, save as int) =~= t.subrange(0, save as int));
            }
            while i < self.olen && i < out.len()
                invariant
                    save <= i <= self.olen,
                    self.olen == t.len(),
                    self.olen <= out@.len(),
                    out@.len() == o1.len(),
                    save_len == save,
                    save <= t.len(),
                    out@.subrange(0, self.olen as int) == abi_partial(t, save_len, i as int),
                    *self == s1,
                decreases self.olen - i,
            {
                let ghost ob = out@;
                if out[i] == 95 {
                    out[i] = 45;
                }
                proof {
                    let olen = self.olen as int;
                    let ii = i as int;
                    assert(ob[ii] == t[ii]) by {
                        assert(ob.subrange(0, olen)[ii] == abi_partial(t, save_len, ii)[ii]);
                    }
                    assert forall|k: int| 0 <= k < olen implies out@[k] == abi_partial(
                        t,
                        save_len,
                        ii + 1,
                    )[k] by {
                        assert(ob.subrange(0, olen)[k] == abi_partial(t, save_len, ii)[k]);
                        if k >= save_len {
                            assert(abi_fix(t, save_len)[k] == (if t[k] == 95 {
                                45u8
                            } else {
                                t[k]
                            }));
                        }
                    }
                    assert(out@.subrange(0, olen) =~= abi_partial(t, save_len, ii + 1));
                }
                i = i + 1;
            }
            self.text = Ghost(abi_fix(t, save_len));
            proof {
                assert(abi_partial(t, save_len, t.len() as int) =~= abi_fix(t, save_len));
                assert(self.text@.subrange(0, s0.st().text.len() as int) =~= s0.st().text) by {
                    assert(t.subrange(0, s0.st().text.len() as int) =~= s0.st().text);
                }
            }
        }
    }

    /// Tuple elements up to the `E`; returns how many there were.
    fn tuple_loop(&mut self, sym: &[u8], out: &mut [u8], depth: u32, bound: u64) -> (n: usize)
        requires
            old(self).wf(sym@, old(out)@),
            depth <= MAX_DEPTH,
        ensures
            stepped(
                *old(self),
                *final(self),
                sym@,
                old(out)@,
                final(out)@,
                tuple(ctx_of(*old(self), sym@, old(out)@), old(self).st(), depth as int, bound as int, true, 0).0,
            ),
            !final(self).st().bad ==> n as int == tuple(
                ctx_of(*old(self), sym@, old(out)@),
                old(self).st(),
                depth as int,
                bound as int,
                true,
                0,
            ).1,
        decreases 65 - depth, 1int, 0int,
    {
        let ghost c = ctx_of(*self, sym@, out@);
        let ghost s0 = *self;
        let ghost o0 = out@;
        let ghost target = tuple(c, s0.st(), depth as int, bound as int, true, 0);
        if self.bad {
            proof {
                lemma_moved(s0, *self, sym@, o0, target.0);
            }
            return 0;
        }
        let mut first = true;
        let mut n: usize = 0;
        proof {
            lemma_moved(s0, *self, sym@, o0, s0.st());
        }
        loop
            invariant_except_break
                !self.bad ==> tuple(c, self.st(), depth as int, bound as int, first, n as int) == target,
                n <= self.pos,
            invariant
                depth <= MAX_DEPTH,
                c == ctx_of(s0, sym@, o0),
                s0 == *old(self),
                o0 == old(out)@,
                !s0.st().bad,
                target == tuple(c, s0.st(), depth as int, bound as int, true, 0),
                stepped(s0, *self, sym@, o0, out@, self.st()),
                first ==> n == 0,
                self.bad ==> target.0.bad,
            ensures
                stepped(s0, *self, sym@, o0, out@, self.st()),
                self.bad ==> target.0.bad,
                !self.bad ==> (self.st(), n as int) == target,
            decreases sym@.len() - self.pos,
        {
            if self.bad || self.peek(sym) == 69 {
                break;
            }
            let before = self.pos;
            let ghost sb = *self;
            let ghost ob = out@;
            let ghost st1 = if first {
                sb.st()
            } else {
                emit(c, sb.st(), seq![44u8, 32u8])
            };
            if !first {
                self.emit(sym, out, &[44u8, 32u8]);
                assert([44u8, 32u8]@ =~= seq![44u8, 32u8]);
                proof {
                    lemma_chain(s0, sb, *self, sym@, o0, ob, out@, sb.st(), emit(c, sb.st(), seq![44u8, 32u8]));
                }
            }
            let ghost sm = *self;
            let ghost om = out@;
            proof {
                if first {
                    assert(sm == sb);
                }
            }
            self.ty(sym, out, depth, bound);
            proof {
                lemma_chain(s0, sm, *self, sym@, o0, om, out@, sm.st(), ty(c, sm.st(), depth as int, bound as int));
                let st2 = ty(c, st1, depth as int, bound as int);
                assert(tuple(c, sb.st(), depth as int, bound as int, first, n as int) == if st2.bad || !advanced(c, sb.st(), st2) {
                    (st2, n + 1)
                } else {
                    tuple(c, st2, depth as int, bound as int, false, n + 1)
                });
            }
            first = false;
            if self.bad {
                break;
            }
            assert(before < sym@.len()) by {
                if before == sym@.len() {
                    lemma_emit_pos(c, sb.st(), seq![44u8, 32u8]);
                    assert(peek(sym@, st1) == 0);
                    assert(path(c, st1, depth + 1, bound as int, false).bad);
                    assert(ty(c, st1, depth as int, bound as int).bad);
                }
            }
            n = n + 1;
            if self.pos <= before {
                break;
            }
        }
        n
    }

    /// Function parameter types up to the `E`.
    fn fn_args_loop(&mut self, sym: &[u8], out: &mut [u8], depth: u32, bound: u64)
        requires
            old(self).wf(sym@, old(out)@),
            depth <= MAX_DEPTH,
        ensures
            stepped(
                *old(self),
                *final(self),
                sym@,
                old(out)@,
                final(out)@,
                fn_args(ctx_of(*old(self), sym@, old(out)@), old(self).st(), depth as int, bound as int, true),
            ),
        decreases 65 - depth, 1int, 0int,
    {
        let ghost c = ctx_of(*self, sym@, out@);
        let ghost s0 = *self;
        let ghost o0 = out@;
        let ghost target = fn_args(c, s0.st(), depth as int, bound as int, true);
        if self.bad {
            proof {
                lemma_moved(s0, *self, sym@, o0, target);
            }
            return;
        }
        let mut first = true;
        proof {
            lemma_moved(s0, *self, sym@, o0, s0.st());
        }
        loop
            invariant_except_break
                !self.bad ==> fn_args(c, self.st(), depth as int, bound as int, first) == target,
            invariant
                depth <= MAX_DEPTH,
                c == ctx_of(s0, sym@, o0),
                s0 == *old(self),
                o0 == old(out)@,
                !s0.st().bad,
                target == fn_args(c, s0.st(), depth as int, bound as int, true),
                stepped(s0, *self, sym@, o0, out@, self.st()),
                self.bad ==> target.bad,
            ensures
                stepped(s0, *self, sym@, o0, out@, self.st()),
                self.bad ==> target.bad,
                !self.bad ==> self.st() == target,
            decreases sym@.len() - self.pos,
        {
            if self.bad || self.peek(sym) == 69 {
                break;
            }
            let before = self.pos;
            let ghost sb = *self;
            let ghost ob = out@;
            let ghost st1 = if first {
                sb.st()
            } else {
                emit(c, sb.st(), seq![44u8, 32u8])
            };
            if !first {
                self.emit(sym, out, &[44u8, 32u8]);
                assert([44u8, 32u8]@ =~= seq![44u8, 32u8]);
                proof {
                    lemma_chain(s0, sb, *self, sym@, o0, ob, out@, sb.st(), emit(c, sb.st(), seq![44u8, 32u8]));
                }
            }
            let ghost sm = *self;
            let ghost om = out@;
            proof {
                if first {
                    assert(sm == sb);
                }
            }
            self.ty(sym, out, depth, bound);
            proof {
                lemma_chain(s0, sm, *self, sym@, o0, om, out@, sm.st(), ty(c, sm.st(), depth as int, bound as int));
                let st2 = ty(c, st1, depth as int, bound as int);
                assert(fn_args(c, sb.st(), depth as int, bound as int, first) == if st2.bad || !advanced(c, sb.st(), st2) {
                    st2
                } else {
                    fn_args(c, st2, depth as int, bound as int, false)
                });
            }
            first = false;
            if self.bad {
                break;
            }
            if self.pos <= before {
                break;
            }
        }
    }
}

/// Whether `b` tags a basic type.
fn prim_tag(b: u8) -> (r: bool)
    ensures
        r == prim(b) is Some,
{
    b == 97 || b == 98 || b == 99 || b == 100 || b == 101 || b == 102 || b == 104 || b == 105 || b
        == 106 || b == 108 || b == 109 || b == 110 || b == 111 || b == 115 || b == 116 || b == 117
        || b == 118 || b == 120 || b == 121 || b == 122 || b == 112
}

impl Demangler {
    /// A type.
    fn ty(&mut self, sym: &[u8], out: &mut [u8], depth: u32, bound: u64)
        requires
            old(self).wf(sym@, old(out)@),
            depth <= MAX_DEPTH,
        ensures
            stepped(
                *old(self),
                *final(self),
                sym@,
                old(out)@,
                final(out)@,
                ty(ctx_of(*old(self), sym@, old(out)@), old(self).st(), depth as int, bound as int),
            ),
        decreases 65 - depth, 0int, 0int,
    {
        let ghost c = ctx_of(*self, sym@, out@);
        let ghost s0 = *self;
        let ghost o0 = out@;
        let ghost want = ty(c, s0.st(), depth as int, bound as int);
        if self.bad {
            proof {
                lemma_moved(s0, *self, sym@, o0, want);
            }
            return;
        }
        if depth + 1 > MAX_DEPTH {
            self.bad = true;
            proof {
                lemma_failed(s0, *self, sym@, o0, want);
            }
            return;
        }
        let d1 = depth + 1;
        let b = self.peek(sym);
        let ghost mut sa = *self;
        let ghost mut oa = out@;
        let ghost mut w = s0.st();
        proof {
            lemma_moved(s0, s0, sym@, o0, s0.st());
        }
        if prim_tag(b) {
            self.pos = self.pos + 1;
            proof {
                lemma_move_then(s0, sa, *self, sym@, o0, oa, w, at(sa.st(), sa.st().pos + 1), at(w, w.pos + 1));
                sa = *self;
                w = at(w, w.pos + 1);
            }
            let _ = self.emit_prim(sym, out, b);
            proof {
                lemma_then(s0, sa, *self, sym@, o0, oa, out@, w, emit(c, sa.st(), prim(b)->0), emit(c, w, prim(b)->0));
                sa = *self;
                oa = out@;
                w = emit(c, w, prim(b)->0);
            }
        } else if b == 65 {
            self.pos = self.pos + 1;
            proof {
                lemma_move_then(s0, sa, *self, sym@, o0, oa, w, at(sa.st(), sa.st().pos + 1), at(w, w.pos + 1));
                sa = *self;
                w = at(w, w.pos + 1);
            }
            self.emit(sym, out, &[91u8]);
            assert([91u8]@ =~= seq![91u8]);
            proof {
                lemma_then(s0, sa, *self, sym@, o0, oa, out@, w, emit(c, sa.st(), seq![91u8]), emit(c, w, seq![91u8]));
                sa = *self;
                oa = out@;
                w = emit(c, w, seq![91u8]);
            }
            self.ty(sym, out, d1, bound);
            proof {
                lemma_then(s0, sa, *self, sym@, o0, oa, out@, w, ty(c, sa.st(), d1 as int, bound as int), ty(c, w, d1 as int, bound as int));
                sa = *self;
                oa = out@;
                w = ty(c, w, d1 as int, bound as int);
            }
            self.emit(sym, out, &[59u8, 32u8]);
            assert([59u8, 32u8]@ =~= seq![59u8, 32u8]);
            proof {
                lemma_then(s0, sa, *self, sym@, o0, oa, out@, w, emit(c, sa.st(), seq![59u8, 32u8]), emit(c, w, seq![59u8, 32u8]));
                sa = *self;
                oa = out@;
                w = emit(c, w, seq![59u8, 32u8]);
            }
            self.konst(sym, out, sym.len());
            proof {
                lemma_then(s0, sa, *self, sym@, o0, oa, out@, w, konst(c, sa.st(), sym@.len() as int), konst(c, w, sym@.len() as int));
                sa = *self;
                oa = out@;
                w = konst(c, w, sym@.len() as int);
            }
            self.emit(sym, out, &[93u8]);
            assert([93u8]@ =~= seq![93u8]);
            proof {
                lemma_then(s0, sa, *self, sym@, o0, oa, out@, w, emit(c, sa.st(), seq![93u8]), emit(c, w, seq![93u8]));
                sa = *self;
                oa = out@;
                w = emit(c, w, seq![93u8]);
            }
        } else if b == 83 {
            self.pos = self.pos + 1;
            proof {
                lemma_move_then(s0, sa, *self, sym@, o0, oa, w, at(sa.st(), sa.st().pos + 1), at(w, w.pos + 1));
                sa = *self;
                w = at(w, w.pos + 1);
            }
            self.emit(sym, out, &[91u8]);
            assert([91u8]@ =~= seq![91u8]);
            proof {
                lemma_then(s0, sa, *self, sym@, o0, oa, out@, w, emit(c, sa.st(), seq![91u8]), emit(c, w, seq![91u8]));
                sa = *self;
                oa = out@;
                w = emit(c, w, seq![91u8]);
            }
            self.ty(sym, out, d1, bound);
            proof {
                lemma_then(s0, sa, *self, sym@, o0, oa, out@, w, ty(c, sa.st(), d1 as int, bound as int), ty(c, w, d1 as int, bound as int));
                sa = *self;
                oa = out@;
                w = ty(c, w, d1 as int, bound as int);
            }
            self.emit(sym, out, &[93u8]);
            assert([93u8]@ =~= seq![93u8]);
            proof {
                lemma_then(s0, sa, *self, sym@, o0, oa, out@, w, emit(c, sa.st(), seq![93u8]), emit(c, w, seq![93u8]));
                sa = *self;
                oa = out@;
                w = emit(c, w, seq![93u8]);
            }
        } else if b == 84 {
            self.pos = self.pos + 1;
            proof {
                lemma_move_then(s0, sa, *self, sym@, o0, oa, w, at(sa.st(), sa.st().pos + 1), at(w, w.pos + 1));
                sa = *self;
                w = at(w, w.pos + 1);
            }
            self.emit(sym, out, &[40u8]);
            assert([40u8]@ =~= seq![40u8]);
            proof {
                lemma_then(s0, sa, *self, sym@, o0, oa, out@, w, emit(c, sa.st(), seq![40u8]), emit(c, w, seq![40u8]));
                sa = *self;
                oa = out@;
                w = emit(c, w, seq![40u8]);
            }
            let n = self.tuple_loop(sym, out, d1, bound);
            proof {
                lemma_then(s0, sa, *self, sym@, o0, oa, out@, w,
                    tuple(c, sa.st(), d1 as int, bound as int, true, 0).0,
                    tuple(c, w, d1 as int, bound as int, true, 0).0);
            }
            let ghost nn = tuple(c, w, d1 as int, bound as int, true, 0).1;
            proof {
                sa = *self;
                oa = out@;
                w = tuple(c, w, d1 as int, bound as int, true, 0).0;
            }
            if self.bad {
                proof {
                    lemma_bad_end(s0, *self, sym@, o0, out@, w, want);
                }
                return;
            }
            self.eat(sym, 69);
            proof {
                lemma_move_then(s0, sa, *self, sym@, o0, oa, w, eat(sym@, sa.st(), 69), eat(sym@, w, 69));
                sa = *self;
                w = eat(sym@, w, 69);
            }
            if self.bad {
                proof {
                    lemma_bad_end(s0, *self, sym@, o0, out@, w, want);
                }
                return;
            }
            if n == 1 {
                self.emit(sym, out, &[44u8]);
                assert([44u8]@ =~= seq![44u8]);
                proof {
                    lemma_then(s0, sa, *self, sym@, o0, oa, out@, w, emit(c, sa.st(), seq![44u8]), emit(c, w, seq![44u8]));
                    sa = *self;
                    oa = out@;
                    w = emit(c, w, seq![44u8]);
                }
            }
            self.emit(sym, out, &[41u8]);
            assert([41u8]@ =~= seq![41u8]);
            proof {
                lemma_then(s0, sa, *self, sym@, o0, oa, out@, w, emit(c, sa.st(), seq![41u8]), emit(c, w, seq![41u8]));
                sa = *self;
                oa = out@;
                w = emit(c, w, seq![41u8]);
            }
        } else if b == 82 {
            self.pos = self.pos + 1;
            proof {
                lemma_move_then(s0, sa, *self, sym@, o0, oa, w, at(sa.st(), sa.st().pos + 1), at(w, w.pos + 1));
                sa = *self;
                w = at(w, w.pos + 1);
            }
            self.emit(sym, out, &[38u8]);
            assert([38u8]@ =~= seq![38u8]);
            proof {
                lemma_then(s0, sa, *self, sym@, o0, oa, out@, w, emit(c, sa.st(), seq![38u8]), emit(c, w, seq![38u8]));
                sa = *self;
                oa = out@;
                w = emit(c, w, seq![38u8]);
            }
            self.ref_lifetime(sym, out, bound);
            proof {
                lemma_then(s0, sa, *self, sym@, o0, oa, out@, w, ref_lifetime(c, sa.st(), bound as int), ref_lifetime(c, w, bound as int));
                sa = *self;
                oa = out@;
                w = ref_lifetime(c, w, bound as int);
            }
            self.ty(sym, out, d1, bound);
            proof {
                lemma_then(s0, sa, *self, sym@, o0, oa, out@, w, ty(c, sa.st(), d1 as int, bound as int), ty(c, w, d1 as int, bound as int));
                sa = *self;
                oa = out@;
                w = ty(c, w, d1 as int, bound as int);
            }
        } else if b == 81 {
            self.pos = self.pos + 1;
            proof {
                lemma_move_then(s0, sa, *self, sym@, o0, oa, w, at(sa.st(), sa.st().pos + 1), at(w, w.pos + 1));
                sa = *self;
                w = at(w, w.pos + 1);
            }
            self.emit(sym, out, &[38u8]);
            assert([38u8]@ =~= seq![38u8]);
            proof {
                lemma_then(s0, sa, *self, sym@, o0, oa, out@, w, emit(c, sa.st(), seq![38u8]), emit(c, w, seq![38u8]));
                sa = *self;
                oa = out@;
                w = emit(c, w, seq![38u8]);
            }
            self.ref_lifetime(sym, out, bound);
            proof {
                lemma_then(s0, sa, *self, sym@, o0, oa, out@, w, ref_lifetime(c, sa.st(), bound as int), ref_lifetime(c, w, bound as int));
                sa = *self;
                oa = out@;
                w = ref_lifetime(c, w, bound as int);
            }
            self.emit(sym, out, &[109u8, 117u8, 116u8, 32u8]);
            assert([109u8, 117u8, 116u8, 32u8]@ =~= seq![109u8, 117u8, 116u8, 32u8]);
            proof {
                lemma_then(s0, sa, *self, sym@, o0, oa, out@, w, emit(c, sa.st(), seq![109u8, 117u8, 116u8, 32u8]), emit(c, w, seq![109u8, 117u8, 116u8, 32u8]));
                sa = *self;
                oa = out@;
                w = emit(c, w, seq![109u8, 117u8, 116u8, 32u8]);
            }
            self.ty(sym, out, d1, bound);
            proof {
                lemma_then(s0, sa, *self, sym@, o0, oa, out@, w, ty(c, sa.st(), d1 as int, bound as int), ty(c, w, d1 as int, bound as int));
                sa = *self;
                oa = out@;
                w = ty(c, w, d1 as int, bound as int);
            }
        } else if b == 80 {
            self.pos = self.pos + 1;
            proof {
                lemma_move_then(s0, sa, *self, sym@, o0, oa, w, at(sa.st(), sa.st().pos + 1), at(w, w.pos + 1));
                sa = *self;
                w = at(w, w.pos + 1);
            }
            self.emit(sym, out, &[42u8, 99u8, 111u8, 110u8, 115u8, 116u8, 32u8]);
            assert([42u8, 99u8, 111u8, 110u8, 115u8, 116u8, 32u8]@ =~= seq![42u8, 99u8, 111u8, 110u8, 115u8, 116u8, 32u8]);
            proof {
                lemma_then(s0, sa, *self, sym@, o0, oa, out@, w, emit(c, sa.st(), seq![42u8, 99u8, 111u8, 110u8, 115u8, 116u8, 32u8]), emit(c, w, seq![42u8, 99u8, 111u8, 110u8, 115u8, 116u8, 32u8]));
                sa = *self;
                oa = out@;
                w = emit(c, w, seq![42u8, 99u8, 111u8, 110u8, 115u8, 116u8, 32u8]);
            }
            self.ty(sym, out, d1, bound);
            proof {
                lemma_then(s0, sa, *self, sym@, o0, oa, out@, w, ty(c, sa.st(), d1 as int, bound as int), ty(c, w, d1 as int, bound as int));
                sa = *self;
                oa = out@;
                w = ty(c, w, d1 as int, bound as int);
            }
        } else if b == 79 {
            self.pos = self.pos + 1;
            proof {
                lemma_move_then(s0, sa, *self, sym@, o0, oa, w, at(sa.st(), sa.st().pos + 1), at(w, w.pos + 1));
                sa = *self;
                w = at(w, w.pos + 1);
            }
            self.emit(sym, out, &[42u8, 109u8, 117u8, 116u8, 32u8]);
            assert([42u8, 109u8, 117u8, 116u8, 32u8]@ =~= seq![42u8, 109u8, 117u8, 116u8, 32u8]);
            proof {
                lemma_then(s0, sa, *self, sym@, o0, oa, out@, w, emit(c, sa.st(), seq![42u8, 109u8, 117u8, 116u8, 32u8]), emit(c, w, seq![42u8, 109u8, 117u8, 116u8, 32u8]));
                sa = *self;
                oa = out@;
                w = emit(c, w, seq![42u8, 109u8, 117u8, 116u8, 32u8]);
            }
            self.ty(sym, out, d1, bound);
            proof {
                lemma_then(s0, sa, *self, sym@, o0, oa, out@, w, ty(c, sa.st(), d1 as int, bound as int), ty(c, w, d1 as int, bound as int));
                sa = *self;
                oa = out@;
                w = ty(c, w, d1 as int, bound as int);
            }
        } else if b == 66 {
            self.pos = self.pos + 1;
            proof {
                lemma_move_then(s0, sa, *self, sym@, o0, oa, w, at(sa.st(), sa.st().pos + 1), at(w, w.pos + 1));
                sa = *self;
                w = at(w, w.pos + 1);
            }
            let target = self.backref_target(sym);
            let ghost bt = backref_target(c, w);
            proof {
                lemma_move_then(s0, sa, *self, sym@, o0, oa, w, backref_target(c, sa.st()).0, bt.0);
                sa = *self;
                w = bt.0;
            }
            if self.bad {
                proof {
                    lemma_bad_end(s0, *self, sym@, o0, out@, w, want);
                }
                return;
            }
            let save = self.pos;
            let ghost wsave = w;
            self.pos = target;
            proof {
                lemma_move_then(s0, sa, *self, sym@, o0, oa, w, at(sa.st(), bt.1), at(w, bt.1));
                sa = *self;
                w = at(w, bt.1);
            }
            self.ty(sym, out, d1, bound);
            proof {
                lemma_then(s0, sa, *self, sym@, o0, oa, out@, w, ty(c, sa.st(), d1 as int, bound as int), ty(c, w, d1 as int, bound as int));
                sa = *self;
                oa = out@;
                w = ty(c, w, d1 as int, bound as int);
            }
            self.pos = save;
            proof {
                lemma_move_then(s0, sa, *self, sym@, o0, oa, w, at(sa.st(), wsave.pos), at(w, wsave.pos));
                sa = *self;
                w = at(w, wsave.pos);
            }
        } else if b == 70 {
            self.pos = self.pos + 1;
            proof {
                lemma_move_then(s0, sa, *self, sym@, o0, oa, w, at(sa.st(), sa.st().pos + 1), at(w, w.pos + 1));
                sa = *self;
                w = at(w, w.pos + 1);
            }
            self.fn_sig(sym, out, d1, bound);
            proof {
                lemma_then(s0, sa, *self, sym@, o0, oa, out@, w, fn_sig(c, sa.st(), d1 as int, bound as int), fn_sig(c, w, d1 as int, bound as int));
                sa = *self;
                oa = out@;
                w = fn_sig(c, w, d1 as int, bound as int);
            }
        } else if b == 68 {
            self.pos = self.pos + 1;
            proof {
                lemma_move_then(s0, sa, *self, sym@, o0, oa, w, at(sa.st(), sa.st().pos + 1), at(w, w.pos + 1));
                sa = *self;
                w = at(w, w.pos + 1);
            }
            self.dyn_bounds(sym, out, d1, bound);
            proof {
                lemma_then(s0, sa, *self, sym@, o0, oa, out@, w, dyn_bounds(c, sa.st(), d1 as int, bound as int), dyn_bounds(c, w, d1 as int, bound as int));
                sa = *self;
                oa = out@;
                w = dyn_bounds(c, w, d1 as int, bound as int);
            }
        } else {
            self.path(sym, out, d1, bound, false);
            proof {
                lemma_then(s0, sa, *self, sym@, o0, oa, out@, w, path(c, sa.st(), d1 as int, bound as int, false), path(c, w, d1 as int, bound as int, false));
                sa = *self;
                oa = out@;
                w = path(c, w, d1 as int, bound as int, false);
            }
        }
    }
}

impl Demangler {
    /// A path: crate root, nested name, impl, trait, generic
    /// specialization or backreference.
    fn path(&mut self, sym: &[u8], out: &mut [u8], depth: u32, bound: u64, in_value: bool)
        requires
            old(self).wf(sym@, old(out)@),
            depth <= MAX_DEPTH,
        ensures
            stepped(
                *old(self),
                *final(self),
                sym@,
                old(out)@,
                final(out)@,
                path(ctx_of(*old(self), sym@, old(out)@), old(self).st(), depth as int, bound as int, in_value),
            ),
        decreases 65 - depth, 0int, 0int,
    {
        let ghost c = ctx_of(*self, sym@, out@);
        let ghost s0 = *self;
        let ghost o0 = out@;
        let ghost want = path(c, s0.st(), depth as int, bound as int, in_value);
        if self.bad {
            proof {
                lemma_moved(s0, *self, sym@, o0, want);
            }
            return;
        }
        if depth + 1 > MAX_DEPTH {
            self.bad = true;
            proof {
                lemma_failed(s0, *self, sym@, o0, want);
            }
            return;
        }
        let d1 = depth + 1;
        let ghost mut sa = *self;
        let ghost mut oa = out@;
        let ghost mut w = s0.st();
        proof {
            lemma_moved(s0, s0, sym@, o0, s0.st());
        }
        let tag = self.next(sym);
        proof {
            lemma_move_then(s0, sa, *self, sym@, o0, oa, w, next(sym@, sa.st()).0, next(sym@, w).0);
            sa = *self;
            w = next(sym@, w).0;
        }
        if self.bad {
            proof {
                lemma_bad_end(s0, *self, sym@, o0, out@, w, want);
            }
            return;
        }
        if tag == 67 {
            let _ = self.disambiguator(sym);
            proof {
                lemma_move_then(s0, sa, *self, sym@, o0, oa, w, disambiguator(sym@, sa.st()).0, disambiguator(sym@, w).0);
                sa = *self;
                w = disambiguator(sym@, w).0;
            }
            self.ident(sym, out, true);
            proof {
                lemma_then(s0, sa, *self, sym@, o0, oa, out@, w, ident(c, sa.st(), true), ident(c, w, true));
                sa = *self;
                oa = out@;
                w = ident(c, w, true);
            }
        } else if tag == 78 {
            let ns = self.next(sym);
            proof {
                lemma_move_then(s0, sa, *self, sym@, o0, oa, w, next(sym@, sa.st()).0, next(sym@, w).0);
                sa = *self;
                w = next(sym@, w).0;
            }
            if self.bad {
                proof {
                    lemma_bad_end(s0, *self, sym@, o0, out@, w, want);
                }
                return;
            }
            self.path(sym, out, d1, bound, in_value);
            proof {
                lemma_then(s0, sa, *self, sym@, o0, oa, out@, w, path(c, sa.st(), d1 as int, bound as int, in_value), path(c, w, d1 as int, bound as int, in_value));
                sa = *self;
                oa = out@;
                w = path(c, w, d1 as int, bound as int, in_value);
            }
            if self.bad {
                proof {
                    lemma_bad_end(s0, *self, sym@, o0, out@, w, want);
                }
                return;
            }
            let dis = self.disambiguator(sym);
            let ghost gdis = disambiguator(sym@, w);
            proof {
                lemma_move_then(s0, sa, *self, sym@, o0, oa, w, disambiguator(sym@, sa.st()).0, gdis.0);
                sa = *self;
                w = gdis.0;
            }
            if self.bad {
                proof {
                    lemma_bad_end(s0, *self, sym@, o0, out@, w, want);
                }
                return;
            }
            if ns == 67 || ns == 83 {
                self.emit(sym, out, &[58u8, 58u8, 123u8]);
                assert([58u8, 58u8, 123u8]@ =~= seq![58u8, 58u8, 123u8]);
                proof {
                    lemma_then(s0, sa, *self, sym@, o0, oa, out@, w, emit(c, sa.st(), seq![58u8, 58u8, 123u8]), emit(c, w, seq![58u8, 58u8, 123u8]));
                    sa = *self;
                    oa = out@;
                    w = emit(c, w, seq![58u8, 58u8, 123u8]);
                }
                if ns == 67 {
                    self.emit(sym, out, &[99u8, 108u8, 111u8, 115u8, 117u8, 114u8, 101u8]);
                    assert([99u8, 108u8, 111u8, 115u8, 117u8, 114u8, 101u8]@ =~= seq![99u8, 108u8, 111u8, 115u8, 117u8, 114u8, 101u8]);
                    proof {
                        lemma_then(s0, sa, *self, sym@, o0, oa, out@, w, emit(c, sa.st(), seq![99u8, 108u8, 111u8, 115u8, 117u8, 114u8, 101u8]), emit(c, w, seq![99u8, 108u8, 111u8, 115u8, 117u8, 114u8, 101u8]));
                        sa = *self;
                        oa = out@;
                        w = emit(c, w, seq![99u8, 108u8, 111u8, 115u8, 117u8, 114u8, 101u8]);
                    }
                } else {
                    self.emit(sym, out, &[115u8, 104u8, 105u8, 109u8]);
                    assert([115u8, 104u8, 105u8, 109u8]@ =~= seq![115u8, 104u8, 105u8, 109u8]);
                    proof {
                        lemma_then(s0, sa, *self, sym@, o0, oa, out@, w, emit(c, sa.st(), seq![115u8, 104u8, 105u8, 109u8]), emit(c, w, seq![115u8, 104u8, 105u8, 109u8]));
                        sa = *self;
                        oa = out@;
                        w = emit(c, w, seq![115u8, 104u8, 105u8, 109u8]);
                    }
                }
                let before = self.pos;
                let ghost w6 = w;
                if self.peek(sym) != 48 {
                    self.emit(sym, out, &[58u8]);
                    assert([58u8]@ =~= seq![58u8]);
                    proof {
                        lemma_then(s0, sa, *self, sym@, o0, oa, out@, w, emit(c, sa.st(), seq![58u8]), emit(c, w, seq![58u8]));
                        sa = *self;
                        oa = out@;
                        w = emit(c, w, seq![58u8]);
                    }
                    self.ident(sym, out, true);
                    proof {
                        lemma_then(s0, sa, *self, sym@, o0, oa, out@, w, ident(c, sa.st(), true), ident(c, w, true));
                        sa = *self;
                        oa = out@;
                        w = ident(c, w, true);
                    }
                } else {
                    self.ident(sym, out, false);
                    proof {
                        lemma_then(s0, sa, *self, sym@, o0, oa, out@, w, ident(c, sa.st(), false), ident(c, w, false));
                        sa = *self;
                        oa = out@;
                        w = ident(c, w, false);
                    }
                }
                if self.bad {
                    proof {
                        lemma_bad_end(s0, *self, sym@, o0, out@, w, want);
                    }
                    return;
                }
                if self.pos == before {
                    self.bad = true;
                    proof {
                        lemma_failed(sa, *self, sym@, oa, fail(w));
                        lemma_then(s0, sa, *self, sym@, o0, oa, oa, w, fail(w), want);
                    }
                    return;
                }
                self.emit(sym, out, &[35u8]);
                assert([35u8]@ =~= seq![35u8]);
                proof {
                    lemma_then(s0, sa, *self, sym@, o0, oa, out@, w, emit(c, sa.st(), seq![35u8]), emit(c, w, seq![35u8]));
                    sa = *self;
                    oa = out@;
                    w = emit(c, w, seq![35u8]);
                }
                self.emit_u64(sym, out, dis);
                proof {
                    lemma_then(s0, sa, *self, sym@, o0, oa, out@, w, emit_u64(c, sa.st(), gdis.1), emit_u64(c, w, gdis.1));
                    sa = *self;
                    oa = out@;
                    w = emit_u64(c, w, gdis.1);
                }
                self.emit(sym, out, &[125u8]);
                assert([125u8]@ =~= seq![125u8]);
                proof {
                    lemma_then(s0, sa, *self, sym@, o0, oa, out@, w, emit(c, sa.st(), seq![125u8]), emit(c, w, seq![125u8]));
                    sa = *self;
                    oa = out@;
                    w = emit(c, w, seq![125u8]);
                }
            } else {
                self.emit(sym, out, &[58u8, 58u8]);
                assert([58u8, 58u8]@ =~= seq![58u8, 58u8]);
                proof {
                    lemma_then(s0, sa, *self, sym@, o0, oa, out@, w, emit(c, sa.st(), seq![58u8, 58u8]), emit(c, w, seq![58u8, 58u8]));
                    sa = *self;
                    oa = out@;
                    w = emit(c, w, seq![58u8, 58u8]);
                }
                self.ident(sym, out, true);
                proof {
                    lemma_then(s0, sa, *self, sym@, o0, oa, out@, w, ident(c, sa.st(), true), ident(c, w, true));
                    sa = *self;
                    oa = out@;
                    w = ident(c, w, true);
                }
            }
        } else if tag == 77 {
            self.impl_path(sym, out, d1, bound);
            proof {
                lemma_then(s0, sa, *self, sym@, o0, oa, out@, w, impl_path(c, sa.st(), d1 as int, bound as int), impl_path(c, w, d1 as int, bound as int));
                sa = *self;
                oa = out@;
                w = impl_path(c, w, d1 as int, bound as int);
            }
            self.emit(sym, out, &[60u8]);
            assert([60u8]@ =~= seq![60u8]);
            proof {
                lemma_then(s0, sa, *self, sym@, o0, oa, out@, w, emit(c, sa.st(), seq![60u8]), emit(c, w, seq![60u8]));
                sa = *self;
                oa = out@;
                w = emit(c, w, seq![60u8]);
            }
            self.ty(sym, out, d1, bound);
            proof {
                lemma_then(s0, sa, *self, sym@, o0, oa, out@, w, ty(c, sa.st(), d1 as int, bound as int), ty(c, w, d1 as int, bound as int));
                sa = *self;
                oa = out@;
                w = ty(c, w, d1 as int, bound as int);
            }
            self.emit(sym, out, &[62u8]);
            assert([62u8]@ =~= seq![62u8]);
            proof {
                lemma_then(s0, sa, *self, sym@, o0, oa, out@, w, emit(c, sa.st(), seq![62u8]), emit(c, w, seq![62u8]));
                sa = *self;
                oa = out@;
                w = emit(c, w, seq![62u8]);
            }
        } else if tag == 88 {
            self.impl_path(sym, out, d1, bound);
            proof {
                lemma_then(s0, sa, *self, sym@, o0, oa, out@, w, impl_path(c, sa.st(), d1 as int, bound as int), impl_path(c, w, d1 as int, bound as int));
                sa = *self;
                oa = out@;
                w = impl_path(c, w, d1 as int, bound as int);
            }
            self.emit(sym, out, &[60u8]);
            assert([60u8]@ =~= seq![60u8]);
            proof {
                lemma_then(s0, sa, *self, sym@, o0, oa, out@, w, emit(c, sa.st(), seq![60u8]), emit(c, w, seq![60u8]));
                sa = *self;
                oa = out@;
                w = emit(c, w, seq![60u8]);
            }
            self.ty(sym, out, d1, bound);
            proof {
                lemma_then(s0, sa, *self, sym@, o0, oa, out@, w, ty(c, sa.st(), d1 as int, bound as int), ty(c, w, d1 as int, bound as int));
                sa = *self;
                oa = out@;
                w = ty(c, w, d1 as int, bound as int);
            }
            self.emit(sym, out, &[32u8, 97u8, 115u8, 32u8]);
            assert([32u8, 97u8, 115u8, 32u8]@ =~= seq![32u8, 97u8, 115u8, 32u8]);
            proof {
                lemma_then(s0, sa, *self, sym@, o0, oa, out@, w, emit(c, sa.st(), seq![32u8, 97u8, 115u8, 32u8]), emit(c, w, seq![32u8, 97u8, 115u8, 32u8]));
                sa = *self;
                oa = out@;
                w = emit(c, w, seq![32u8, 97u8, 115u8, 32u8]);
            }
            self.path(sym, out, d1, bound, false);
            proof {
                lemma_then(s0, sa, *self, sym@, o0, oa, out@, w, path(c, sa.st(), d1 as int, bound as int, false), path(c, w, d1 as int, bound as int, false));
                sa = *self;
                oa = out@;
                w = path(c, w, d1 as int, bound as int, false);
            }
            self.emit(sym, out, &[62u8]);
            assert([62u8]@ =~= seq![62u8]);
            proof {
                lemma_then(s0, sa, *self, sym@, o0, oa, out@, w, emit(c, sa.st(), seq![62u8]), emit(c, w, seq![62u8]));
                sa = *self;
                oa = out@;
                w = emit(c, w, seq![62u8]);
            }
        } else if tag == 89 {
            self.emit(sym, out, &[60u8]);
            assert([60u8]@ =~= seq![60u8]);
            proof {
                lemma_then(s0, sa, *self, sym@, o0, oa, out@, w, emit(c, sa.st(), seq![60u8]), emit(c, w, seq![60u8]));
                sa = *self;
                oa = out@;
                w = emit(c, w, seq![60u8]);
            }
            self.ty(sym, out, d1, bound);
            proof {
                lemma_then(s0, sa, *self, sym@, o0, oa, out@, w, ty(c, sa.st(), d1 as int, bound as int), ty(c, w, d1 as int, bound as int));
                sa = *self;
                oa = out@;
                w = ty(c, w, d1 as int, bound as int);
            }
            self.emit(sym, out, &[32u8, 97u8, 115u8, 32u8]);
            assert([32u8, 97u8, 115u8, 32u8]@ =~= seq![32u8, 97u8, 115u8, 32u8]);
            proof {
                lemma_then(s0, sa, *self, sym@, o0, oa, out@, w, emit(c, sa.st(), seq![32u8, 97u8, 115u8, 32u8]), emit(c, w, seq![32u8, 97u8, 115u8, 32u8]));
                sa = *self;
                oa = out@;
                w = emit(c, w, seq![32u8, 97u8, 115u8, 32u8]);
            }
            self.path(sym, out, d1, bound, false);
            proof {
                lemma_then(s0, sa, *self, sym@, o0, oa, out@, w, path(c, sa.st(), d1 as int, bound as int, false), path(c, w, d1 as int, bound as int, false));
                sa = *self;
                oa = out@;
                w = path(c, w, d1 as int, bound as int, false);
            }
            self.emit(sym, out, &[62u8]);
            assert([62u8]@ =~= seq![62u8]);
            proof {
                lemma_then(s0, sa, *self, sym@, o0, oa, out@, w, emit(c, sa.st(), seq![62u8]), emit(c, w, seq![62u8]));
                sa = *self;
                oa = out@;
                w = emit(c, w, seq![62u8]);
            }
        } else if tag == 73 {
            self.path(sym, out, d1, bound, in_value);
            proof {
                lemma_then(s0, sa, *self, sym@, o0, oa, out@, w, path(c, sa.st(), d1 as int, bound as int, in_value), path(c, w, d1 as int, bound as int, in_value));
                sa = *self;
                oa = out@;
                w = path(c, w, d1 as int, bound as int, in_value);
            }
            if self.bad {
                proof {
                    lemma_bad_end(s0, *self, sym@, o0, out@, w, want);
                }
                return;
            }
            if in_value {
                self.emit(sym, out, &[58u8, 58u8]);
                assert([58u8, 58u8]@ =~= seq![58u8, 58u8]);
                proof {
                    lemma_then(s0, sa, *self, sym@, o0, oa, out@, w, emit(c, sa.st(), seq![58u8, 58u8]), emit(c, w, seq![58u8, 58u8]));
                    sa = *self;
                    oa = out@;
                    w = emit(c, w, seq![58u8, 58u8]);
                }
            }
            self.emit(sym, out, &[60u8]);
            assert([60u8]@ =~= seq![60u8]);
            proof {
                lemma_then(s0, sa, *self, sym@, o0, oa, out@, w, emit(c, sa.st(), seq![60u8]), emit(c, w, seq![60u8]));
                sa = *self;
                oa = out@;
                w = emit(c, w, seq![60u8]);
            }
            self.args_loop(sym, out, d1, bound);
            proof {
                lemma_then(s0, sa, *self, sym@, o0, oa, out@, w, args(c, sa.st(), d1 as int, bound as int, true), args(c, w, d1 as int, bound as int, true));
                sa = *self;
                oa = out@;
                w = args(c, w, d1 as int, bound as int, true);
            }
            self.eat(sym, 69);
            proof {
                lemma_move_then(s0, sa, *self, sym@, o0, oa, w, eat(sym@, sa.st(), 69), eat(sym@, w, 69));
                sa = *self;
                w = eat(sym@, w, 69);
            }
            self.emit(sym, out, &[62u8]);
            assert([62u8]@ =~= seq![62u8]);
            proof {
                lemma_then(s0, sa, *self, sym@, o0, oa, out@, w, emit(c, sa.st(), seq![62u8]), emit(c, w, seq![62u8]));
                sa = *self;
                oa = out@;
                w = emit(c, w, seq![62u8]);
            }
        } else if tag == 66 {
            let target = self.backref_target(sym);
            let ghost bt = backref_target(c, w);
            proof {
                lemma_move_then(s0, sa, *self, sym@, o0, oa, w, backref_target(c, sa.st()).0, bt.0);
                sa = *self;
                w = bt.0;
            }
            if self.bad {
                proof {
                    lemma_bad_end(s0, *self, sym@, o0, out@, w, want);
                }
                return;
            }
            let save = self.pos;
            let ghost wsave = w;
            self.pos = target;
            proof {
                lemma_move_then(s0, sa, *self, sym@, o0, oa, w, at(sa.st(), bt.1), at(w, bt.1));
                sa = *self;
                w = at(w, bt.1);
            }
            self.path(sym, out, d1, bound, in_value);
            proof {
                lemma_then(s0, sa, *self, sym@, o0, oa, out@, w, path(c, sa.st(), d1 as int, bound as int, in_value), path(c, w, d1 as int, bound as int, in_value));
                sa = *self;
                oa = out@;
                w = path(c, w, d1 as int, bound as int, in_value);
            }
            self.pos = save;
            proof {
                lemma_move_then(s0, sa, *self, sym@, o0, oa, w, at(sa.st(), wsave.pos), at(w, wsave.pos));
                sa = *self;
                w = at(w, wsave.pos);
            }
        } else {
            self.bad = true;
            proof {
                lemma_failed(sa, *self, sym@, oa, fail(w));
                lemma_then(s0, sa, *self, sym@, o0, oa, oa, w, fail(w), want);
            }
        }
    }
}

impl Demangler {
    /// `F <binder>? U? (K <abi>)? {type} E <ret>`: a function pointer type.
    fn fn_sig(&mut self, sym: &[u8], out: &mut [u8], depth: u32, bound: u64)
        requires
            old(self).wf(sym@, old(out)@),
            depth <= MAX_DEPTH,
        ensures
            stepped(
                *old(self),
                *final(self),
                sym@,
                old(out)@,
                final(out)@,
                fn_sig(ctx_of(*old(self), sym@, old(out)@), old(self).st(), depth as int, bound as int),
            ),
        decreases 65 - depth, 2int, 0int,
    {
        let ghost c = ctx_of(*self, sym@, out@);
        let ghost s0 = *self;
        let ghost o0 = out@;
        let ghost want = fn_sig(c, s0.st(), depth as int, bound as int);
        if self.bad {
            proof {
                lemma_moved(s0, *self, sym@, o0, want);
            }
            return;
        }
        let ghost mut sa = *self;
        let ghost mut oa = out@;
        let ghost mut w = s0.st();
        proof {
            lemma_moved(s0, s0, sym@, o0, s0.st());
        }
        let n = self.push_binder(sym, out, bound);
        let ghost pb = push_binder(c, w, bound as int);
        proof {
            lemma_then(s0, sa, *self, sym@, o0, oa, out@, w, push_binder(c, sa.st(), bound as int).0, pb.0);
            sa = *self;
            oa = out@;
            w = pb.0;
        }
        if self.bad {
            proof {
                lemma_bad_end(s0, *self, sym@, o0, out@, w, want);
            }
            return;
        }
        let b2 = bound + n;
        if self.peek(sym) == 85 {
            self.pos = self.pos + 1;
            proof {
                lemma_move_then(s0, sa, *self, sym@, o0, oa, w, at(sa.st(), sa.st().pos + 1), at(w, w.pos + 1));
                sa = *self;
                w = at(w, w.pos + 1);
            }
            self.emit(sym, out, &[117u8, 110u8, 115u8, 97u8, 102u8, 101u8, 32u8]);
            assert([117u8, 110u8, 115u8, 97u8, 102u8, 101u8, 32u8]@ =~= seq![117u8, 110u8, 115u8, 97u8, 102u8, 101u8, 32u8]);
            proof {
                lemma_then(s0, sa, *self, sym@, o0, oa, out@, w, emit(c, sa.st(), seq![117u8, 110u8, 115u8, 97u8, 102u8, 101u8, 32u8]), emit(c, w, seq![117u8, 110u8, 115u8, 97u8, 102u8, 101u8, 32u8]));
                sa = *self;
                oa = out@;
                w = emit(c, w, seq![117u8, 110u8, 115u8, 97u8, 102u8, 101u8, 32u8]);
            }
        }
        if self.peek(sym) == 75 {
            self.pos = self.pos + 1;
            proof {
                lemma_move_then(s0, sa, *self, sym@, o0, oa, w, at(sa.st(), sa.st().pos + 1), at(w, w.pos + 1));
                sa = *self;
                w = at(w, w.pos + 1);
            }
            self.emit(sym, out, &[101u8, 120u8, 116u8, 101u8, 114u8, 110u8, 32u8, 34u8]);
            assert([101u8, 120u8, 116u8, 101u8, 114u8, 110u8, 32u8, 34u8]@ =~= seq![101u8, 120u8, 116u8, 101u8, 114u8, 110u8, 32u8, 34u8]);
            proof {
                lemma_then(s0, sa, *self, sym@, o0, oa, out@, w, emit(c, sa.st(), seq![101u8, 120u8, 116u8, 101u8, 114u8, 110u8, 32u8, 34u8]), emit(c, w, seq![101u8, 120u8, 116u8, 101u8, 114u8, 110u8, 32u8, 34u8]));
                sa = *self;
                oa = out@;
                w = emit(c, w, seq![101u8, 120u8, 116u8, 101u8, 114u8, 110u8, 32u8, 34u8]);
            }
            self.abi(sym, out);
            proof {
                lemma_then(s0, sa, *self, sym@, o0, oa, out@, w, abi(c, sa.st()), abi(c, w));
                sa = *self;
                oa = out@;
                w = abi(c, w);
            }
            self.emit(sym, out, &[34u8, 32u8]);
            assert([34u8, 32u8]@ =~= seq![34u8, 32u8]);
            proof {
                lemma_then(s0, sa, *self, sym@, o0, oa, out@, w, emit(c, sa.st(), seq![34u8, 32u8]), emit(c, w, seq![34u8, 32u8]));
                sa = *self;
                oa = out@;
                w = emit(c, w, seq![34u8, 32u8]);
            }
        }
        self.emit(sym, out, &[102u8, 110u8, 40u8]);
        assert([102u8, 110u8, 40u8]@ =~= seq![102u8, 110u8, 40u8]);
        proof {
            lemma_then(s0, sa, *self, sym@, o0, oa, out@, w, emit(c, sa.st(), seq![102u8, 110u8, 40u8]), emit(c, w, seq![102u8, 110u8, 40u8]));
            sa = *self;
            oa = out@;
            w = emit(c, w, seq![102u8, 110u8, 40u8]);
        }
        self.fn_args_loop(sym, out, depth, b2);
        proof {
            lemma_then(s0, sa, *self, sym@, o0, oa, out@, w, fn_args(c, sa.st(), depth as int, b2 as int, true), fn_args(c, w, depth as int, b2 as int, true));
            sa = *self;
            oa = out@;
            w = fn_args(c, w, depth as int, b2 as int, true);
        }
        self.eat(sym, 69);
        proof {
            lemma_move_then(s0, sa, *self, sym@, o0, oa, w, eat(sym@, sa.st(), 69), eat(sym@, w, 69));
            sa = *self;
            w = eat(sym@, w, 69);
        }
        self.emit(sym, out, &[41u8]);
        assert([41u8]@ =~= seq![41u8]);
        proof {
            lemma_then(s0, sa, *self, sym@, o0, oa, out@, w, emit(c, sa.st(), seq![41u8]), emit(c, w, seq![41u8]));
            sa = *self;
            oa = out@;
            w = emit(c, w, seq![41u8]);
        }
        if self.bad {
            proof {
                lemma_bad_end(s0, *self, sym@, o0, out@, w, want);
            }
            return;
        }
        if self.peek(sym) == 117 {
            self.pos = self.pos + 1;
            proof {
                lemma_move_then(s0, sa, *self, sym@, o0, oa, w, at(sa.st(), sa.st().pos + 1), at(w, w.pos + 1));
                sa = *self;
                w = at(w, w.pos + 1);
            }
        } else {
            self.emit(sym, out, &[32u8, 45u8, 62u8, 32u8]);
            assert([32u8, 45u8, 62u8, 32u8]@ =~= seq![32u8, 45u8, 62u8, 32u8]);
            proof {
                lemma_then(s0, sa, *self, sym@, o0, oa, out@, w, emit(c, sa.st(), seq![32u8, 45u8, 62u8, 32u8]), emit(c, w, seq![32u8, 45u8, 62u8, 32u8]));
                sa = *self;
                oa = out@;
                w = emit(c, w, seq![32u8, 45u8, 62u8, 32u8]);
            }
            self.ty(sym, out, depth, b2);
            proof {
                lemma_then(s0, sa, *self, sym@, o0, oa, out@, w, ty(c, sa.st(), depth as int, b2 as int), ty(c, w, depth as int, b2 as int));
                sa = *self;
                oa = out@;
                w = ty(c, w, depth as int, b2 as int);
            }
        }
    }
}

impl Demangler {
    /// A path whose generic list, if it has one, is left open; says whether it is.
    fn pog(&mut self, sym: &[u8], out: &mut [u8], depth: u32, bound: u64, fuel: usize) -> (open: bool)
        requires
            old(self).wf(sym@, old(out)@),
            depth <= MAX_DEPTH,
        ensures
            stepped(
                *old(self),
                *final(self),
                sym@,
                old(out)@,
                final(out)@,
                pog(ctx_of(*old(self), sym@, old(out)@), old(self).st(), depth as int, bound as int, fuel as int).0,
            ),
            !final(self).st().bad ==> open == pog(ctx_of(*old(self), sym@, old(out)@), old(self).st(), depth as int, bound as int, fuel as int).1,
        decreases 65 - depth, 3int, fuel,
    {
        let ghost c = ctx_of(*self, sym@, out@);
        let ghost s0 = *self;
        let ghost o0 = out@;
        let ghost wantp = pog(c, s0.st(), depth as int, bound as int, fuel as int);
        let ghost want = wantp.0;
        if self.bad {
            proof {
                lemma_moved(s0, *self, sym@, o0, want);
            }
            return false;
        }
        let ghost mut sa = *self;
        let ghost mut oa = out@;
        let ghost mut w = s0.st();
        proof {
            lemma_moved(s0, s0, sym@, o0, s0.st());
        }
        if self.peek(sym) == 66 {
            self.pos = self.pos + 1;
            proof {
                lemma_move_then(s0, sa, *self, sym@, o0, oa, w, at(sa.st(), sa.st().pos + 1), at(w, w.pos + 1));
                sa = *self;
                w = at(w, w.pos + 1);
            }
            let target = self.backref_target(sym);
            let ghost bt = backref_target(c, w);
            proof {
                lemma_move_then(s0, sa, *self, sym@, o0, oa, w, backref_target(c, sa.st()).0, bt.0);
                sa = *self;
                w = bt.0;
            }
            if self.bad {
                proof {
                    lemma_bad_end(s0, *self, sym@, o0, out@, w, want);
                }
                return false;
            }
            if fuel == 0 {
                self.bad = true;
                proof {
                    lemma_failed(sa, *self, sym@, oa, fail(w));
                    lemma_then(s0, sa, *self, sym@, o0, oa, oa, w, fail(w), want);
                }
                return false;
            }
            let save = self.pos;
            let ghost wsave = w;
            self.pos = target;
            proof {
                lemma_move_then(s0, sa, *self, sym@, o0, oa, w, at(sa.st(), bt.1), at(w, bt.1));
                sa = *self;
                w = at(w, bt.1);
            }
            let open = self.pog(sym, out, depth, bound, fuel - 1);
            let ghost inner = pog(c, w, depth as int, bound as int, fuel - 1);
            proof {
                lemma_then(s0, sa, *self, sym@, o0, oa, out@, w,
                    pog(c, sa.st(), depth as int, bound as int, fuel - 1).0, inner.0);
                sa = *self;
                oa = out@;
                w = inner.0;
            }
            self.pos = save;
            proof {
                lemma_move_then(s0, sa, *self, sym@, o0, oa, w, at(sa.st(), wsave.pos), at(w, wsave.pos));
                sa = *self;
                w = at(w, wsave.pos);
            }
            return open;
        }
        if self.peek(sym) != 73 {
            self.path(sym, out, depth, bound, false);
            proof {
                lemma_then(s0, sa, *self, sym@, o0, oa, out@, w, path(c, sa.st(), depth as int, bound as int, false), path(c, w, depth as int, bound as int, false));
                sa = *self;
                oa = out@;
                w = path(c, w, depth as int, bound as int, false);
            }
            return false;
        }
        self.pos = self.pos + 1;
        proof {
            lemma_move_then(s0, sa, *self, sym@, o0, oa, w, at(sa.st(), sa.st().pos + 1), at(w, w.pos + 1));
            sa = *self;
            w = at(w, w.pos + 1);
        }
        self.path(sym, out, depth, bound, false);
        proof {
            lemma_then(s0, sa, *self, sym@, o0, oa, out@, w, path(c, sa.st(), depth as int, bound as int, false), path(c, w, depth as int, bound as int, false));
            sa = *self;
            oa = out@;
            w = path(c, w, depth as int, bound as int, false);
        }
        if self.bad {
            proof {
                lemma_bad_end(s0, *self, sym@, o0, out@, w, want);
            }
            return false;
        }
        self.emit(sym, out, &[60u8]);
        assert([60u8]@ =~= seq![60u8]);
        proof {
            lemma_then(s0, sa, *self, sym@, o0, oa, out@, w, emit(c, sa.st(), seq![60u8]), emit(c, w, seq![60u8]));
            sa = *self;
            oa = out@;
            w = emit(c, w, seq![60u8]);
        }
        self.args_loop(sym, out, depth, bound);
        proof {
            lemma_then(s0, sa, *self, sym@, o0, oa, out@, w, args(c, sa.st(), depth as int, bound as int, true), args(c, w, depth as int, bound as int, true));
            sa = *self;
            oa = out@;
            w = args(c, w, depth as int, bound as int, true);
        }
        self.eat(sym, 69);
        proof {
            lemma_move_then(s0, sa, *self, sym@, o0, oa, w, eat(sym@, sa.st(), 69), eat(sym@, w, 69));
            sa = *self;
            w = eat(sym@, w, 69);
        }
        true
    }
}

impl Demangler {
    /// `D <binder>? {dyn-trait} E <lifetime>`: a trait object type.
    fn dyn_bounds(&mut self, sym: &[u8], out: &mut [u8], depth: u32, bound: u64)
        requires
            old(self).wf(sym@, old(out)@),
            depth <= MAX_DEPTH,
        ensures
            stepped(
                *old(self),
                *final(self),
                sym@,
                old(out)@,
                final(out)@,
                dyn_bounds(ctx_of(*old(self), sym@, old(out)@), old(self).st(), depth as int, bound as int),
            ),
        decreases 65 - depth, 5int, 0int,
    {
        let ghost c = ctx_of(*self, sym@, out@);
        let ghost s0 = *self;
        let ghost o0 = out@;
        let ghost want = dyn_bounds(c, s0.st(), depth as int, bound as int);
        if self.bad {
            proof {
                lemma_moved(s0, *self, sym@, o0, want);
            }
            return;
        }
        let ghost mut sa = *self;
        let ghost mut oa = out@;
        let ghost mut w = s0.st();
        proof {
            lemma_moved(s0, s0, sym@, o0, s0.st());
        }
        self.emit(sym, out, &[100u8, 121u8, 110u8, 32u8]);
        assert([100u8, 121u8, 110u8, 32u8]@ =~= seq![100u8, 121u8, 110u8, 32u8]);
        proof {
            lemma_then(s0, sa, *self, sym@, o0, oa, out@, w, emit(c, sa.st(), seq![100u8, 121u8, 110u8, 32u8]), emit(c, w, seq![100u8, 121u8, 110u8, 32u8]));
            sa = *self;
            oa = out@;
            w = emit(c, w, seq![100u8, 121u8, 110u8, 32u8]);
        }
        let nb = self.push_binder(sym, out, bound);
        let ghost pb = push_binder(c, w, bound as int);
        proof {
            lemma_then(s0, sa, *self, sym@, o0, oa, out@, w, push_binder(c, sa.st(), bound as int).0, pb.0);
            sa = *self;
            oa = out@;
            w = pb.0;
        }
        if self.bad {
            proof {
                lemma_bad_end(s0, *self, sym@, o0, out@, w, want);
            }
            return;
        }
        let b2 = bound + nb;
        self.dyn_outer(sym, out, depth, b2);
        proof {
            lemma_then(s0, sa, *self, sym@, o0, oa, out@, w, dyn_outer(c, sa.st(), depth as int, b2 as int, true), dyn_outer(c, w, depth as int, b2 as int, true));
            sa = *self;
            oa = out@;
            w = dyn_outer(c, w, depth as int, b2 as int, true);
        }
        self.eat(sym, 69);
        proof {
            lemma_move_then(s0, sa, *self, sym@, o0, oa, w, eat(sym@, sa.st(), 69), eat(sym@, w, 69));
            sa = *self;
            w = eat(sym@, w, 69);
        }
        if self.bad {
            proof {
                lemma_bad_end(s0, *self, sym@, o0, out@, w, want);
            }
            return;
        }
        if self.peek(sym) == 76 {
            self.pos = self.pos + 1;
            proof {
                lemma_move_then(s0, sa, *self, sym@, o0, oa, w, at(sa.st(), sa.st().pos + 1), at(w, w.pos + 1));
                sa = *self;
                w = at(w, w.pos + 1);
            }
            let lt = self.base62(sym);
            let ghost bl = base62(sym@, w);
            proof {
                lemma_move_then(s0, sa, *self, sym@, o0, oa, w, base62(sym@, sa.st()).0, bl.0);
                sa = *self;
                w = bl.0;
            }
            if self.bad {
                proof {
                    lemma_bad_end(s0, *self, sym@, o0, out@, w, want);
                }
                return;
            }
            if lt != 0 {
                self.emit(sym, out, &[32u8, 43u8, 32u8]);
                assert([32u8, 43u8, 32u8]@ =~= seq![32u8, 43u8, 32u8]);
                proof {
                    lemma_then(s0, sa, *self, sym@, o0, oa, out@, w, emit(c, sa.st(), seq![32u8, 43u8, 32u8]), emit(c, w, seq![32u8, 43u8, 32u8]));
                    sa = *self;
                    oa = out@;
                    w = emit(c, w, seq![32u8, 43u8, 32u8]);
                }
                self.lifetime(sym, out, b2, lt);
                proof {
                    lemma_then(s0, sa, *self, sym@, o0, oa, out@, w, lifetime(c, sa.st(), b2 as int, bl.1), lifetime(c, w, b2 as int, bl.1));
                    sa = *self;
                    oa = out@;
                    w = lifetime(c, w, b2 as int, bl.1);
                }
            }
        } else {
            self.bad = true;
            proof {
                lemma_failed(sa, *self, sym@, oa, fail(w));
                lemma_then(s0, sa, *self, sym@, o0, oa, oa, w, fail(w), want);
            }
        }
    }
}

impl Demangler {
    /// Associated-type bindings `p <ident> <type>` of one dyn trait,
    /// joined into its generic list; says whether the list is open.
    fn dyn_inner(&mut self, sym: &[u8], out: &mut [u8], depth: u32, bound: u64, open0: bool) -> (open: bool)
        requires
            old(self).wf(sym@, old(out)@),
            depth <= MAX_DEPTH,
        ensures
            stepped(
                *old(self),
                *final(self),
                sym@,
                old(out)@,
                final(out)@,
                dyn_inner(ctx_of(*old(self), sym@, old(out)@), old(self).st(), depth as int, bound as int, open0).0,
            ),
            !final(self).st().bad ==> open == dyn_inner(
                ctx_of(*old(self), sym@, old(out)@),
                old(self).st(),
                depth as int,
                bound as int,
                open0,
            ).1,
        decreases 65 - depth, 1int, 0int,
    {
        let ghost c = ctx_of(*self, sym@, out@);
        let ghost s0 = *self;
        let ghost o0 = out@;
        let ghost target = dyn_inner(c, s0.st(), depth as int, bound as int, open0);
        if self.bad {
            proof {
                lemma_moved(s0, *self, sym@, o0, target.0);
            }
            return open0;
        }
        let mut open = open0;
        proof {
            lemma_moved(s0, *self, sym@, o0, s0.st());
        }
        loop
            invariant_except_break
                !self.bad ==> dyn_inner(c, self.st(), depth as int, bound as int, open) == target,
            invariant
                depth <= MAX_DEPTH,
                c == ctx_of(s0, sym@, o0),
                s0 == *old(self),
                o0 == old(out)@,
                !s0.st().bad,
                target == dyn_inner(c, s0.st(), depth as int, bound as int, open0),
                stepped(s0, *self, sym@, o0, out@, self.st()),
                self.bad ==> target.0.bad,
            ensures
                stepped(s0, *self, sym@, o0, out@, self.st()),
                self.bad ==> target.0.bad,
                !self.bad ==> (self.st(), open) == target,
            decreases sym@.len() - self.pos,
        {
            if self.bad || self.peek(sym) != 112 {
                break;
            }
            let before = self.pos;
            let ghost sb = *self;
            let ghost ob = out@;
            let ghost mut sa = *self;
            let ghost mut oa = out@;
            let ghost mut w = sb.st();
            proof {
                lemma_moved(sb, sb, sym@, ob, sb.st());
            }
            self.pos = self.pos + 1;
            proof {
                lemma_move_then(sb, sa, *self, sym@, ob, oa, w, at(sa.st(), sa.st().pos + 1), at(w, w.pos + 1));
                sa = *self;
                w = at(w, w.pos + 1);
            }
            if !open {
                self.emit(sym, out, &[60u8]);
                assert([60u8]@ =~= seq![60u8]);
                proof {
                    lemma_then(sb, sa, *self, sym@, ob, oa, out@, w, emit(c, sa.st(), seq![60u8]), emit(c, w, seq![60u8]));
                    sa = *self;
                    oa = out@;
                    w = emit(c, w, seq![60u8]);
                }
            } else {
                self.emit(sym, out, &[44u8, 32u8]);
                assert([44u8, 32u8]@ =~= seq![44u8, 32u8]);
                proof {
                    lemma_then(sb, sa, *self, sym@, ob, oa, out@, w, emit(c, sa.st(), seq![44u8, 32u8]), emit(c, w, seq![44u8, 32u8]));
                    sa = *self;
                    oa = out@;
                    w = emit(c, w, seq![44u8, 32u8]);
                }
            }
            self.ident(sym, out, true);
            proof {
                lemma_then(sb, sa, *self, sym@, ob, oa, out@, w, ident(c, sa.st(), true), ident(c, w, true));
                sa = *self;
                oa = out@;
                w = ident(c, w, true);
            }
            self.emit(sym, out, &[32u8, 61u8, 32u8]);
            assert([32u8, 61u8, 32u8]@ =~= seq![32u8, 61u8, 32u8]);
            proof {
                lemma_then(sb, sa, *self, sym@, ob, oa, out@, w, emit(c, sa.st(), seq![32u8, 61u8, 32u8]), emit(c, w, seq![32u8, 61u8, 32u8]));
                sa = *self;
                oa = out@;
                w = emit(c, w, seq![32u8, 61u8, 32u8]);
            }
            self.ty(sym, out, depth, bound);
            proof {
                lemma_then(sb, sa, *self, sym@, ob, oa, out@, w, ty(c, sa.st(), depth as int, bound as int), ty(c, w, depth as int, bound as int));
                sa = *self;
                oa = out@;
                w = ty(c, w, depth as int, bound as int);
            }
            proof {
                lemma_chain(s0, sb, *self, sym@, o0, ob, out@, sb.st(), w);
            }
            open = true;
            if self.bad {
                break;
            }
            if self.pos <= before {
                break;
            }
        }
        open
    }

    /// The traits of a `dyn`, up to the `E`, joined with ` + `.
    fn dyn_outer(&mut self, sym: &[u8], out: &mut [u8], depth: u32, bound: u64)
        requires
            old(self).wf(sym@, old(out)@),
            depth <= MAX_DEPTH,
        ensures
            stepped(
                *old(self),
                *final(self),
                sym@,
                old(out)@,
                final(out)@,
                dyn_outer(ctx_of(*old(self), sym@, old(out)@), old(self).st(), depth as int, bound as int, true),
            ),
        decreases 65 - depth, 4int, 0int,
    {
        let ghost c = ctx_of(*self, sym@, out@);
        let ghost s0 = *self;
        let ghost o0 = out@;
        let ghost target = dyn_outer(c, s0.st(), depth as int, bound as int, true);
        if self.bad {
            proof {
                lemma_moved(s0, *self, sym@, o0, target);
            }
            return;
        }
        let mut first = true;
        proof {
            lemma_moved(s0, *self, sym@, o0, s0.st());
        }
        loop
            invariant_except_break
                !self.bad ==> dyn_outer(c, self.st(), depth as int, bound as int, first) == target,
            invariant
                depth <= MAX_DEPTH,
                c == ctx_of(s0, sym@, o0),
                s0 == *old(self),
                o0 == old(out)@,
                !s0.st().bad,
                target == dyn_outer(c, s0.st(), depth as int, bound as int, true),
                stepped(s0, *self, sym@, o0, out@, self.st()),
                self.bad ==> target.bad,
            ensures
                stepped(s0, *self, sym@, o0, out@, self.st()),
                self.bad ==> target.bad,
                !self.bad ==> self.st() == target,
            decreases sym@.len() - self.pos,
        {
            if self.bad || self.peek(sym) == 69 {
                break;
            }
            let before = self.pos;
            let ghost sb = *self;
            let ghost ob = out@;
            let ghost mut sa = *self;
            let ghost mut oa = out@;
            let ghost mut w = sb.st();
            proof {
                lemma_moved(sb, sb, sym@, ob, sb.st());
                let st1 = if first {
                    sb.st()
                } else {
                    emit(c, sb.st(), seq![32u8, 43u8, 32u8])
                };
                let pp = pog(c, st1, depth as int, bound as int, sym@.len() as int);
                let dd = dyn_inner(c, pp.0, depth as int, bound as int, pp.1);
                let st4 = if dd.1 {
                    emit(c, dd.0, seq![62u8])
                } else {
                    dd.0
                };
                assert(dyn_outer(c, sb.st(), depth as int, bound as int, first) == if st4.bad
                    || !advanced(c, sb.st(), st4) {
                    st4
                } else {
                    dyn_outer(c, st4, depth as int, bound as int, false)
                });
            }
            if !first {
                self.emit(sym, out, &[32u8, 43u8, 32u8]);
                assert([32u8, 43u8, 32u8]@ =~= seq![32u8, 43u8, 32u8]);
                proof {
                    lemma_then(sb, sa, *self, sym@, ob, oa, out@, w, emit(c, sa.st(), seq![32u8, 43u8, 32u8]), emit(c, w, seq![32u8, 43u8, 32u8]));
                    sa = *self;
                    oa = out@;
                    w = emit(c, w, seq![32u8, 43u8, 32u8]);
                }
            }
            let open = self.pog(sym, out, depth, bound, sym.len());
            let ghost pg = pog(c, w, depth as int, bound as int, sym@.len() as int);
            proof {
                lemma_then(sb, sa, *self, sym@, ob, oa, out@, w,
                    pog(c, sa.st(), depth as int, bound as int, sym@.len() as int).0, pg.0);
                sa = *self;
                oa = out@;
                w = pg.0;
            }
            if self.bad {
                proof {
                    lemma_chain(s0, sb, *self, sym@, o0, ob, out@, sb.st(), w);
                }
                break;
            }
            let open2 = self.dyn_inner(sym, out, depth, bound, open);
            let ghost di = dyn_inner(c, w, depth as int, bound as int, pg.1);
            proof {
                lemma_then(sb, sa, *self, sym@, ob, oa, out@, w,
                    dyn_inner(c, sa.st(), depth as int, bound as int, open).0, di.0);
                sa = *self;
                oa = out@;
                w = di.0;
            }
            if self.bad {
                proof {
                    lemma_chain(s0, sb, *self, sym@, o0, ob, out@, sb.st(), w);
                }
                break;
            }
            if open2 {
                self.emit(sym, out, &[62u8]);
                assert([62u8]@ =~= seq![62u8]);
                proof {
                    lemma_then(sb, sa, *self, sym@, ob, oa, out@, w, emit(c, sa.st(), seq![62u8]), emit(c, w, seq![62u8]));
                    sa = *self;
                    oa = out@;
                    w = emit(c, w, seq![62u8]);
                }
            }
            proof {
                lemma_chain(s0, sb, *self, sym@, o0, ob, out@, sb.st(), w);
            }
            first = false;
            if self.bad {
                break;
            }
            if self.pos <= before {
                break;
            }
        }
    }
}

/// Demangles the v0 symbol `sym` into `out`, as `v0_demangled` says.
/// Returns the number of bytes written, or 0 when `sym` is not a v0
/// symbol, uses a construct that is not modelled, or its name does not
/// fit; an empty `out` has room for nothing, so the result is 0.
pub fn demangle_v0(sym: &[u8], out: &mut [u8]) -> (r: usize)
    ensures
        final(out)@.len() == old(out)@.len(),
        r <= old(out)@.len(),
        old(out)@.len() == 0 ==> r == 0,
        old(out)@.len() > 0 ==> r == (match v0_demangled(sym@, old(out)@.len() as int) {
            Some(t) => t.len() as int,
            None => 0,
        }),
        old(out)@.len() > 0 && v0_demangled(sym@, old(out)@.len() as int) is Some
            ==> final(out)@.subrange(0, r as int) == v0_demangled(sym@, old(out)@.len() as int)->0,
{
    if out.len() == 0 || sym.len() < 3 || sym[0] != 95 || sym[1] != 82 {
        return 0;
    }
    let mut pos: usize = 2;
    if sym[2] == 95 {
        pos = 3;
    }
    let base = pos;
    let mut d = Demangler { base, pos, olen: 0, bad: false, text: Ghost(Seq::empty()) };
    assert(out@.subrange(0, 0) =~= Seq::<u8>::empty());
    d.path(sym, out, 0, 0, true);
    if d.bad {
        return 0;
    }
    if d.pos < sym.len() {
        let rest = d.pos;
        let mut probe = Demangler { base, pos: rest, olen: 0, bad: false, text: Ghost(Seq::empty()) };
        let mut none: [u8; 0] = [];
        probe.path(sym, &mut none, 0, 0, true);
        if probe.bad || probe.pos != sym.len() {
            return 0;
        }
    }
    d.olen
}

/// Printing moves no cursor.
pub proof fn lemma_emit_pos(c: Ctx, st: VS, s: Seq<u8>)
    ensures
        emit(c, st, s).pos == st.pos,
    decreases s.len(),
{
    if !st.bad && s.len() > 0 {
        lemma_emit_pos(c, putc(c, st, s[0]), s.drop_first());
    }
}

/// Printing onto a failed state changes nothing.
pub proof fn lemma_emit_bad(c: Ctx, st: VS, s: Seq<u8>)
    requires
        st.bad,
    ensures
        emit(c, st, s) == st,
{
}

} // verus!
