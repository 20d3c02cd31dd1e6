//! The processors (Ps) an M must hold to run goroutines, and the global
//! run queue goroutines wait in when no P's local queue takes them.
//! Goroutines and Ms are named by identities (their addresses, never 0);
//! the caller owns them and the locks around this state.
use vstd::prelude::*;

verus! {

/// A P nobody holds.
pub const P_IDLE: u32 = 0;
/// A P an M runs goroutines on.
pub const P_RUNNING: u32 = 1;
/// A P whose M is in a system call.
pub const P_SYSCALL: u32 = 2;
/// A P no longer in use.
pub const P_DEAD: u32 = 3;
/// Slots of a P's local run queue.
pub const LOCAL_RUNQ_SIZE: usize = 256;
/// The most Ps there can be.
pub const MAX_PS: usize = 256;

/// One P.
#[derive(Clone, Copy, PartialEq, Eq, Debug)]
pub struct P {
    pub id: u32,
    pub status: u32,
    /// The M holding it, 0 for none.
    pub m: u64,
}

/// The Ps, once bootstrapped.
pub struct Ps {
    ps: Vec<P>,
}

impl View for Ps {
    type V = Seq<P>;

    closed spec fn view(&self) -> Seq<P> {
        self.ps@
    }
}

/// The Ps `bootstrap_ps(n)` creates: `min(n, MAX_PS)` idle ones,
/// numbered from 0.
pub open spec fn fresh_ps(n: int) -> Seq<P> {
    let k = if n < MAX_PS {
        n
    } else {
        MAX_PS as int
    };
    Seq::new(k as nat, |i: int| P { id: i as u32, status: P_IDLE, m: 0 })
}

impl Ps {
    /// No P yet.
    pub fn new() -> (r: Self)
        ensures
            r@ == Seq::<P>::empty(),
    {
        let r = Ps { ps: Vec::new() };
        assert(r@ =~= Seq::<P>::empty());
        r
    }

    /// `bootstrap_ps` — creates `min(n, MAX_PS)` idle Ps, once: when
    /// there are Ps already nothing changes.
    pub fn bootstrap_ps(&mut self, n: usize)
        ensures
            old(self)@.len() != 0 ==> final(self)@ == old(self)@,
            old(self)@.len() == 0 ==> final(self)@ == fresh_ps(n as int),
    {
        if self.ps.len() != 0 {
            return;
        }
        let k = if n < MAX_PS {
            n
        } else {
            MAX_PS
        };
        let mut i: usize = 0;
        while i < k
            invariant
                k <= MAX_PS,
                k == (if n < MAX_PS { n as int } else { MAX_PS as int }),
                i <= k,
                self@ == Seq::new(i as nat, |j: int| P { id: j as u32, status: P_IDLE, m: 0 }),
            decreases k - i,
        {
            self.ps.push(P { id: i as u32, status: P_IDLE, m: 0 });
            i = i + 1;
            assert(self@ =~= Seq::new(i as nat, |j: int| P { id: j as u32, status: P_IDLE, m: 0 }));
        }
    }

    /// `num_ps` — how many Ps there are.
    pub fn num_ps(&self) -> (n: usize)
        ensures
            n == self@.len(),
    {
        self.ps.len()
    }

    /// `p_at` — P `i`, if there is one.
    pub fn p_at(&self, i: usize) -> (r: Option<P>)
        ensures
            i < self@.len() ==> r == Some(self@[i as int]),
            i >= self@.len() ==> r is None,
    {
        if i < self.ps.len() {
            Some(self.ps[i])
        } else {
            None
        }
    }

    /// `acquirep` — M `m` takes idle P `i`, which starts running.
    pub fn acquirep(&mut self, i: usize, m: u64)
        requires
            i < old(self)@.len(),
            old(self)@[i as int].status == P_IDLE,
            m != 0,
        ensures
            final(self)@ == old(self)@.update(i as int, (P { status: P_RUNNING, m, ..old(self)@[i as int] })),
    {
        let p = self.ps[i];
        self.ps.set(i, P { status: P_RUNNING, m, ..p });
    }

    /// `releasep` — the M holding P `i` lets it go: the P is idle and
    /// held by nobody. Returns it as it now is.
    pub fn releasep(&mut self, i: usize) -> (r: P)
        requires
            i < old(self)@.len(),
        ensures
            r == (P { status: P_IDLE, m: 0, ..old(self)@[i as int] }),
            final(self)@ == old(self)@.update(i as int, r),
    {
        let p = self.ps[i];
        let q = P { status: P_IDLE, m: 0, ..p };
        self.ps.set(i, q);
        q
    }
}

/// The global run queue, first to run first.
pub struct Sched {
    runq: Vec<u64>,
}

impl View for Sched {
    type V = Seq<u64>;

    closed spec fn view(&self) -> Seq<u64> {
        self.runq@
    }
}

impl Sched {
    /// An empty run queue.
    pub fn new() -> (s: Self)
        ensures
            s@ == Seq::<u64>::empty(),
    {
        let s = Sched { runq: Vec::new() };
        assert(s@ =~= Seq::<u64>::empty());
        s
    }

    /// `globrunqput_batch` — queues the goroutines of `batch` in order,
    /// skipping null entries.
    pub fn globrunqput_batch(&mut self, batch: &[u64])
        ensures
            final(self)@ == old(self)@ + batch@.filter(|g: u64| g != 0),
    {
        let mut i: usize = 0;
        while i < batch.len()
            invariant
                i <= batch.len(),
                self@ == old(self)@ + batch@.take(i as int).filter(|g: u64| g != 0),
            decreases batch.len() - i,
        {
            proof {
                assert(batch@.take(i + 1) =~= batch@.take(i as int).push(batch@[i as int]));
                batch@.take(i as int).lemma_filter_push(batch@[i as int], |g: u64| g != 0);
            }
            if batch[i] != 0 {
                self.runq.push(batch[i]);
            }
            i = i + 1;
            assert(self@ =~= old(self)@ + batch@.take(i as int).filter(|g: u64| g != 0));
        }
        assert(batch@.take(batch.len() as int) =~= batch@);
    }

    /// `globrunqget_one` — takes the goroutine that has waited longest.
    pub fn globrunqget_one(&mut self) -> (g: Option<u64>)
        ensures
            old(self)@.len() == 0 ==> g is None && final(self)@ == old(self)@,
            old(self)@.len() > 0 ==> g == Some(old(self)@[0]) && final(self)@ == old(self)@.drop_first(),
    {
        if self.runq.len() == 0 {
            return None;
        }
        let g = self.runq.remove(0);
        assert(self@ =~= old(self)@.drop_first());
        Some(g)
    }

    /// `runq_len` — goroutines waiting.
    pub fn runq_len(&self) -> (n: usize)
        ensures
            n == self@.len(),
    {
        self.runq.len()
    }
}

} // verus!
