//! Signal delivery bookkeeping: which channels want which signals, and
//! how many deliveries of a signal arrived since it was last looked at.
//! The handler counts deliveries in atomics the caller owns; the caller
//! sends on the channels, which it names here by an identity number.
use vstd::prelude::*;
use vstd::wrapping::i64_specs;

verus! {

/// Signals tracked: `0..MAX_SIG`.
pub const MAX_SIG: usize = 64;

/// One registration: a channel and the signals it wants, bit `i` for
/// signal `i`.
#[derive(Clone, Copy, PartialEq, Eq, Debug)]
pub struct Registration {
    pub target: u64,
    pub sigs: u64,
}

/// The registrations, and the delivery count last seen per signal.
pub struct SignalTable {
    regs: Vec<Registration>,
    last_seen: Vec<i64>,
}

/// What the table holds.
pub struct SignalView {
    pub regs: Seq<Registration>,
    pub last_seen: Seq<i64>,
}

impl View for SignalTable {
    type V = SignalView;

    closed spec fn view(&self) -> SignalView {
        SignalView { regs: self.regs@, last_seen: self.last_seen@ }
    }
}

/// The bitmap of the signals in `sigs` that are tracked.
pub open spec fn sig_bits(sigs: Seq<i32>) -> u64
    decreases sigs.len(),
{
    if sigs.len() == 0 {
        0
    } else {
        let s = sigs.last();
        let rest = sig_bits(sigs.drop_last());
        if 0 <= s < 64 {
            rest | (1u64 << (s as u64))
        } else {
            rest
        }
    }
}

/// The first registration of channel `c`, or `regs.len()`.
pub open spec fn reg_index(regs: Seq<Registration>, c: u64) -> int
    decreases regs.len(),
{
    if regs.len() == 0 {
        0
    } else if reg_index(regs.drop_last(), c) < regs.len() - 1 {
        reg_index(regs.drop_last(), c)
    } else if regs.last().target == c {
        regs.len() - 1
    } else {
        regs.len() as int
    }
}

/// The channels registered for signal `sig`, in registration order.
pub open spec fn targets_of(regs: Seq<Registration>, sig: int) -> Seq<u64>
    decreases regs.len(),
{
    if regs.len() == 0 {
        Seq::empty()
    } else {
        let rest = targets_of(regs.drop_last(), sig);
        if regs.last().sigs & (1u64 << (sig as u64)) != 0 {
            rest.push(regs.last().target)
        } else {
            rest
        }
    }
}

/// The bitmap of the tracked signals among `sigs`; the caller installs
/// the handler for each of them.
pub fn sig_bitmap(sigs: &[i32]) -> (b: u64)
    ensures
        b == sig_bits(sigs@),
{
    let mut b: u64 = 0;
    let mut i: usize = 0;
    while i < sigs.len()
        invariant
            i <= sigs.len(),
            b == sig_bits(sigs@.take(i as int)),
        decreases sigs.len() - i,
    {
        let s = sigs[i];
        proof {
            assert(sigs@.take(i + 1).drop_last() =~= sigs@.take(i as int));
        }
        if 0 <= s && s < 64 {
            b = b | (1u64 << (s as u64));
        }
        i = i + 1;
    }
    assert(sigs@.take(sigs.len() as int) =~= sigs@);
    b
}

impl SignalTable {
    /// No registrations, no delivery seen.
    pub fn new() -> (t: Self)
        ensures
            t@.regs == Seq::<Registration>::empty(),
            t@.last_seen == Seq::new(MAX_SIG as nat, |i: int| 0i64),
    {
        let mut last: Vec<i64> = Vec::new();
        let mut i: usize = 0;
        while i < MAX_SIG
            invariant
                i <= MAX_SIG,
                last@ == Seq::new(i as nat, |k: int| 0i64),
            decreases MAX_SIG - i,
        {
            last.push(0);
            i = i + 1;
            assert(last@ =~= Seq::new(i as nat, |k: int| 0i64));
        }
        let t = SignalTable { regs: Vec::new(), last_seen: last };
        assert(t@.regs =~= Seq::<Registration>::empty());
        t
    }

    /// The deliveries of `sig` since the previous call, given the
    /// handler's running count `now`; the count is remembered. Untracked
    /// signals give 0.
    pub fn drain_count(&mut self, sig: i32, now: i64) -> (n: i64)
        requires
            old(self)@.last_seen.len() == MAX_SIG,
        ensures
            final(self)@.regs == old(self)@.regs,
            0 <= sig < MAX_SIG ==> n == i64_specs::wrapping_sub(now, old(self)@.last_seen[sig as int])
                && final(self)@.last_seen == old(self)@.last_seen.update(sig as int, now),
            !(0 <= sig < MAX_SIG) ==> n == 0 && final(self)@.last_seen == old(self)@.last_seen,
    {
        if sig < 0 || sig as usize >= MAX_SIG {
            return 0;
        }
        let i = sig as usize;
        let prev = self.last_seen[i];
        self.last_seen.set(i, now);
        now.wrapping_sub(prev)
    }

    /// Registers channel `c` for the signals in `sigs`; a channel
    /// already registered gets them added to its set.
    pub fn register(&mut self, c: u64, sigs: &[i32])
        ensures
            final(self)@.last_seen == old(self)@.last_seen,
            ({
                let k = reg_index(old(self)@.regs, c);
                let r = old(self)@.regs;
                if k < r.len() {
                    final(self)@.regs == r.update(k, Registration { target: c, sigs: r[k].sigs | sig_bits(sigs@) })
                } else {
                    final(self)@.regs == r.push(Registration { target: c, sigs: sig_bits(sigs@) })
                }
            }),
    {
        let bits = sig_bitmap(sigs);
        let ghost r = self@.regs;
        let mut i: usize = 0;
        while i < self.regs.len()
            invariant
                i <= self.regs.len(),
                self@.regs == r,
                self@.last_seen == old(self)@.last_seen,
                r == old(self)@.regs,
                bits == sig_bits(sigs@),
                reg_index(r.take(i as int), c) == i,
                forall|k: int| 0 <= k < i ==> (#[trigger] r[k]).target != c,
            decreases self.regs.len() - i,
        {
            proof {
                assert(r.take(i + 1).drop_last() =~= r.take(i as int));
            }
            if self.regs[i].target == c {
                let old_bits = self.regs[i].sigs;
                self.regs.set(i, Registration { target: c, sigs: old_bits | bits });
                proof {
                    lemma_reg_index_prefix(r, c, i as int);
                    assert(self@.regs =~= r.update(i as int, Registration { target: c, sigs: r[i as int].sigs | bits }));
                }
                return;
            }
            i = i + 1;
        }
        proof {
            assert(r.take(r.len() as int) =~= r);
        }
        self.regs.push(Registration { target: c, sigs: bits });
    }

    /// Drops every registration of channel `c`.
    pub fn unregister(&mut self, c: u64)
        ensures
            final(self)@.last_seen == old(self)@.last_seen,
            final(self)@.regs == old(self)@.regs.filter(|e: Registration| e.target != c),
    {
        let ghost r = self@.regs;
        let mut kept: Vec<Registration> = Vec::new();
        let mut i: usize = 0;
        while i < self.regs.len()
            invariant
                i <= self.regs.len(),
                self@.regs == r,
                self@.last_seen == old(self)@.last_seen,
                r == old(self)@.regs,
                kept@ == r.take(i as int).filter(|e: Registration| e.target != c),
            decreases self.regs.len() - i,
        {
            proof {
                assert(r.take(i + 1) =~= r.take(i as int).push(r[i as int]));
                r.take(i as int).lemma_filter_push(r[i as int], |e: Registration| e.target != c);
            }
            let e = self.regs[i];
            if e.target != c {
                kept.push(e);
            }
            i = i + 1;
        }
        proof {
            assert(r.take(r.len() as int) =~= r);
        }
        self.regs = kept;
    }

    /// The channels registered for `sig`, in registration order; each
    /// is to be sent `sig` once per delivery drained.
    pub fn targets(&self, sig: i32) -> (t: Vec<u64>)
        requires
            0 <= sig < MAX_SIG,
        ensures
            t@ == targets_of(self@.regs, sig as int),
    {
        let ghost r = self@.regs;
        let mut t: Vec<u64> = Vec::new();
        let mut i: usize = 0;
        let bit: u64 = 1u64 << (sig as u64);
        while i < self.regs.len()
            invariant
                i <= self.regs.len(),
                r == self@.regs,
                bit == 1u64 << (sig as u64),
                t@ == targets_of(r.take(i as int), sig as int),
            decreases self.regs.len() - i,
        {
            proof {
                assert(r.take(i + 1).drop_last() =~= r.take(i as int));
            }
            if self.regs[i].sigs & bit != 0 {
                t.push(self.regs[i].target);
            }
            i = i + 1;
        }
        proof {
            assert(r.take(r.len() as int) =~= r);
        }
        t
    }
}

proof fn lemma_reg_index_prefix(r: Seq<Registration>, c: u64, i: int)
    requires
        0 <= i < r.len(),
        r[i].target == c,
        reg_index(r.take(i), c) == i,
    ensures
        reg_index(r, c) == i,
    decreases r.len(),
{
    if r.len() == i + 1 {
        assert(r.drop_last() =~= r.take(i));
    } else {
        assert(r.drop_last().take(i) =~= r.take(i));
        lemma_reg_index_prefix(r.drop_last(), c, i);
    }
}

} // verus!
