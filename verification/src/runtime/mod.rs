//! The runtime: the page and span allocators, symbolization, package
//! init, the debug knobs, heap profiling, and the introspection calls
//! of Go's `runtime` package. Stack walking itself is the caller's: the
//! functions here take the return PCs that a walk found.
#![allow(non_snake_case)]

pub mod args;
pub mod crash;
pub mod debug;
pub mod heap;
pub mod mprof;
pub mod netpoll;
pub mod pprof;
pub mod preempt;
pub mod mcentral;
pub mod mem;
pub mod mheap;
pub mod pkginit;
pub mod sched;
pub mod signal;
pub mod symbolize;
pub mod trace;

use vstd::prelude::*;

verus! {

/// `runtime.GOOS`: the operating-system target.
pub const GOOS: &'static str = "linux";
/// `runtime.GOARCH`: the CPU architecture target.
pub const GOARCH: &'static str = "amd64";
/// `runtime.Compiler`: the toolchain that built this binary.
pub const Compiler: &'static str = "goish";
/// What `Version` reports.
pub const VERSION: &'static str = "goish1.0";

/// `runtime.Version()`: the runtime's version string.
pub fn Version() -> (v: &'static str)
    ensures
        v@ == VERSION@,
{
    VERSION
}

/// `runtime.GOROOT()`: there is no installation tree, so the empty
/// string, Go's "not set".
pub fn GOROOT() -> (v: &'static str)
    ensures
        v@.len() == 0,
{
    let v = "";
    proof {
        reveal_strlit("");
    }
    v
}

/// `runtime.LockOSThread()`: every M owns its thread and goroutines do
/// not migrate in ways that break the pinning, so there is nothing to
/// do.
pub fn LockOSThread() {
}

/// `runtime.UnlockOSThread()`: undoes `LockOSThread`, which did nothing.
pub fn UnlockOSThread() {
}

/// `runtime.NumCgoCall()`: there is no cgo, so no cgo call was made.
pub fn NumCgoCall() -> (n: i64)
    ensures
        n == 0,
{
    0
}

/// `runtime.GC()`: there is no collector to run; a forced collection
/// is a hint.
pub fn GC() {
}

/// `runtime.SetFinalizer(obj, finalizer)`: cleanup runs through `Drop`,
/// so nothing is registered.
pub fn SetFinalizer<T, F>(obj: T, finalizer: F) {
}

/// `runtime.GoroutineProfile(p)`: no goroutine stacks are collected;
/// `(0, false)` says that `p` was too small, so callers skip the
/// profile.
pub fn GoroutineProfile(p: &[u64]) -> (r: (i64, bool))
    ensures
        r == (0i64, false),
{
    (0, false)
}

/// A walk's return PCs without its first, which is the frame of the
/// walker itself: shifts `frames[1..n]` down and zeroes the rest.
/// Returns how many are left.
pub fn drop_own_frame(frames: &mut [u64], n: usize) -> (kept: usize)
    requires
        n <= old(frames)@.len(),
    ensures
        final(frames)@.len() == old(frames)@.len(),
        n == 0 ==> kept == 0 && final(frames)@ == old(frames)@,
        n > 0 ==> kept == n - 1,
        n > 0 ==> final(frames)@.subrange(0, kept as int) == old(frames)@.subrange(1, n as int),
        n > 0 ==> forall|i: int| kept <= i < final(frames)@.len() ==> final(frames)@[i] == 0,
{
    if n == 0 {
        return 0;
    }
    let kept = n - 1;
    let ghost f0 = frames@;
    let mut i: usize = 0;
    while i < kept
        invariant
            kept == n - 1,
            n <= f0.len(),
            i <= kept,
            frames@.len() == f0.len(),
            forall|k: int| 0 <= k < i ==> frames@[k] == f0[k + 1],
            forall|k: int| i <= k < f0.len() ==> frames@[k] == f0[k],
        decreases kept - i,
    {
        frames[i] = frames[i + 1];
        i = i + 1;
    }
    while i < frames.len()
        invariant
            kept <= i <= frames@.len(),
            frames@.len() == f0.len(),
            kept == n - 1,
            n <= f0.len(),
            forall|k: int| 0 <= k < kept ==> frames@[k] == f0[k + 1],
            forall|k: int| kept <= k < i ==> frames@[k] == 0,
        decreases frames@.len() - i,
    {
        frames[i] = 0;
        i = i + 1;
    }
    assert(frames@.subrange(0, kept as int) =~= f0.subrange(1, n as int));
    kept
}

/// `runtime.Caller(skip)`, given the return PCs of the walk from the
/// frame of `Caller` itself (`frames[0]`): the PC of the frame `skip`
/// levels above the caller of `Caller`, and whether there is one. A
/// negative `skip`, a walk too short, or a 0 PC give `(0, false)`; the
/// caller symbolizes the PC into a file and line.
pub fn Caller(skip: i64, frames: &[u64]) -> (r: (u64, bool))
    ensures
        r == (if skip < 0 || skip + 1 >= frames@.len() || frames@[skip + 1] == 0 {
            (0u64, false)
        } else {
            (frames@[skip + 1], true)
        }),
{
    if skip < 0 {
        return (0, false);
    }
    let s = skip as u64;
    let nn = frames.len() as u64;
    if s >= nn || s + 1 >= nn {
        return (0, false);
    }
    let idx = (s + 1) as usize;
    let pc = frames[idx];
    if pc == 0 {
        return (0, false);
    }
    (pc, true)
}

/// How many of `s` come before its first 0.
pub open spec fn lead_nonzero(s: Seq<u64>) -> nat
    decreases s.len(),
{
    if s.len() == 0 || s[0] == 0 {
        0
    } else {
        1 + lead_nonzero(s.drop_first())
    }
}

/// What `Callers` writes: the frames from `skip` on, as many as `pcs`
/// holds, up to the first 0.
pub open spec fn callers_run(skip: int, frames: Seq<u64>, cap: int) -> Seq<u64> {
    if cap <= 0 || skip < 0 || skip >= frames.len() {
        Seq::empty()
    } else {
        let avail = frames.subrange(skip, frames.len() as int);
        let window = avail.subrange(0, if avail.len() < cap { avail.len() as int } else { cap });
        window.subrange(0, lead_nonzero(window) as int)
    }
}

proof fn lemma_lead_nonzero(s: Seq<u64>)
    ensures
        lead_nonzero(s) <= s.len(),
        forall|k: int| 0 <= k < lead_nonzero(s) ==> s[k] != 0,
        lead_nonzero(s) < s.len() ==> s[lead_nonzero(s) as int] == 0,
    decreases s.len(),
{
    if s.len() > 0 && s[0] != 0 {
        lemma_lead_nonzero(s.drop_first());
        assert forall|k: int| 0 <= k < lead_nonzero(s) implies s[k] != 0 by {
            if k > 0 {
                assert(s[k] == s.drop_first()[k - 1]);
            }
        }
    }
}

/// `runtime.Callers(skip, pcs)`, given the return PCs of the walk from
/// the frame of `Callers` itself (`skip == 0`): writes the frames from
/// `skip` on into `pcs`, stopping at the first 0 or when `pcs` is full,
/// and returns how many it wrote. The rest of `pcs` is left as it was.
pub fn Callers(skip: i64, frames: &[u64], pcs: &mut [u64]) -> (n: i64)
    requires
        old(pcs)@.len() <= i64::MAX,
    ensures
        final(pcs)@.len() == old(pcs)@.len(),
        n == callers_run(skip as int, frames@, old(pcs)@.len() as int).len(),
        final(pcs)@.subrange(0, n as int) == callers_run(skip as int, frames@, old(pcs)@.len() as int),
        final(pcs)@.subrange(n as int, old(pcs)@.len() as int) == old(pcs)@.subrange(
            n as int,
            old(pcs)@.len() as int,
        ),
{
    let cap = pcs.len();
    let ghost p0 = pcs@;
    if cap == 0 || skip < 0 {
        assert(pcs@.subrange(0, 0) =~= callers_run(skip as int, frames@, cap as int));
        return 0;
    }
    let n = frames.len();
    if skip as u64 >= n as u64 {
        assert(pcs@.subrange(0, 0) =~= callers_run(skip as int, frames@, cap as int));
        return 0;
    }
    let start = skip as usize;
    let avail = n - start;
    let want = if avail < cap {
        avail
    } else {
        cap
    };
    let ghost window = frames@.subrange(start as int, n as int).subrange(0, want as int);
    proof {
        lemma_lead_nonzero(window);
    }
    let mut i: usize = 0;
    while i < want
        invariant
            i <= want,
            want <= cap,
            start + want <= n,
            n == frames@.len(),
            cap == p0.len(),
            pcs@.len() == p0.len(),
            window == frames@.subrange(start as int, n as int).subrange(0, want as int),
            i <= lead_nonzero(window),
            forall|k: int| 0 <= k < lead_nonzero(window) ==> window[k] != 0,
            lead_nonzero(window) < window.len() ==> window[lead_nonzero(window) as int] == 0,
            lead_nonzero(window) <= window.len(),
            forall|k: int| 0 <= k < i ==> pcs@[k] == frames@[start + k],
            forall|k: int| i <= k < cap ==> pcs@[k] == p0[k],
        ensures
            i == lead_nonzero(window),
            pcs@.len() == p0.len(),
            forall|k: int| 0 <= k < i ==> pcs@[k] == frames@[start + k],
            forall|k: int| i <= k < cap ==> pcs@[k] == p0[k],
        decreases want - i,
    {
        let pc = frames[start + i];
        if pc == 0 {
            assert(window[i as int] == 0);
            break;
        }
        assert(window[i as int] != 0);
        pcs[i] = pc;
        i = i + 1;
    }
    assert(i == lead_nonzero(window));
    assert(pcs@.subrange(0, i as int) =~= callers_run(skip as int, frames@, cap as int));
    assert(pcs@.subrange(i as int, cap as int) =~= p0.subrange(i as int, cap as int));
    i as i64
}

/// `runtime.Func`: a handle on a function.
#[derive(Clone, Copy)]
pub struct Func {
    pub entry: u64,
}

impl Func {
    /// `(*Func).Name()`: no name is known.
    pub fn Name(&self) -> (n: &'static str)
        ensures
            n@.len() == 0,
    {
        let v = "";
        proof {
            reveal_strlit("");
        }
        v
    }
}

/// `runtime.FuncForPC(pc)`: there is no function table to look `pc`
/// up in, so none.
pub fn FuncForPC(pc: u64) -> (f: Option<Func>)
    ensures
        f is None,
{
    None
}

} // verus!
