//! Runtime introspection and the `runtime/debug` knobs. There is no
//! garbage collector and no stack walker behind them: the knobs remember
//! what they are set to and hand back the previous setting. The settings
//! live in a `DebugState` that the caller owns; the CPU count and the
//! live goroutine count are measured by the caller and passed in.
#![allow(non_snake_case)]

use vstd::prelude::*;
use vstd::string::*;

verus! {

/// Go's default GC percent.
pub const DEFAULT_GC_PERCENT: i64 = 100;
/// Go's default maximum number of threads.
pub const DEFAULT_MAX_THREADS: i64 = 10000;
/// Go's default soft memory limit.
pub const DEFAULT_MEMORY_LIMIT: i64 = 0x7fff_ffff_ffff_ffff;
/// Default stack reservation of a bare goroutine: 1 MiB.
pub const DEFAULT_MAX_STACK: usize = 0x10_0000;
/// What `Stack` returns in place of a trace.
pub const STACK_PLACEHOLDER: &'static str =
    "goroutine 1 [running]:\n\tgoish runtime/debug.Stack: stack trace unavailable\n";

/// The remembered settings. A cached value of 0 means "not yet known".
pub struct DebugState {
    pub num_cpu: usize,
    pub gomaxprocs: usize,
    pub gc_percent: i64,
    pub max_stack: usize,
    pub max_threads: i64,
    pub panic_on_fault: bool,
    pub memory_limit: i64,
}

impl DebugState {
    /// The settings a process starts with.
    pub fn new() -> (r: Self)
        ensures
            r.num_cpu == 0 && r.gomaxprocs == 0,
            r.gc_percent == DEFAULT_GC_PERCENT,
            r.max_stack == DEFAULT_MAX_STACK,
            r.max_threads == DEFAULT_MAX_THREADS,
            !r.panic_on_fault,
            r.memory_limit == DEFAULT_MEMORY_LIMIT,
    {
        DebugState {
            num_cpu: 0,
            gomaxprocs: 0,
            gc_percent: DEFAULT_GC_PERCENT,
            max_stack: DEFAULT_MAX_STACK,
            max_threads: DEFAULT_MAX_THREADS,
            panic_on_fault: false,
            memory_limit: DEFAULT_MEMORY_LIMIT,
        }
    }
}

/// The cached CPU count, filled from `detected` on first use.
fn cpu_count(st: &mut DebugState, detected: usize) -> (r: usize)
    ensures
        old(st).num_cpu != 0 ==> r == old(st).num_cpu && *final(st) == *old(st),
        old(st).num_cpu == 0 ==> r == detected && *final(st) == (DebugState { num_cpu: detected, ..*old(st) }),
{
    let cached = st.num_cpu;
    if cached != 0 {
        return cached;
    }
    st.num_cpu = detected;
    detected
}

/// `NumCPU` — the number of usable CPUs, measured once (`detected`) and
/// then remembered.
pub fn NumCPU(st: &mut DebugState, detected: usize) -> (r: i64)
    requires
        old(st).num_cpu <= i64::MAX,
        detected <= i64::MAX,
    ensures
        old(st).num_cpu != 0 ==> r == old(st).num_cpu && *final(st) == *old(st),
        old(st).num_cpu == 0 ==> r == detected && *final(st) == (DebugState { num_cpu: detected, ..*old(st) }),
{
    cpu_count(st, detected) as i64
}

/// `NumGoroutine` — the number of live goroutines, as counted by the
/// scheduler.
pub fn NumGoroutine(live: usize) -> (r: i64)
    requires
        live <= i64::MAX,
    ensures
        r == live,
{
    live as i64
}

/// `GOMAXPROCS(n)` — the previous setting (the CPU count until one is
/// set); `n > 0` sets a new one.
pub fn GOMAXPROCS(st: &mut DebugState, detected: usize, n: i64) -> (r: i64)
    requires
        old(st).num_cpu <= i64::MAX,
        old(st).gomaxprocs <= i64::MAX,
        detected <= i64::MAX,
    ensures
        ({
            let cpus = if old(st).num_cpu != 0 { old(st).num_cpu } else { detected };
            let prev = if old(st).gomaxprocs != 0 { old(st).gomaxprocs } else { cpus };
            &&& r == prev
            &&& final(st).num_cpu == (if old(st).gomaxprocs != 0 { old(st).num_cpu } else { cpus })
            &&& final(st).gomaxprocs == (if n > 0 { n as usize } else { prev })
            &&& final(st).gc_percent == old(st).gc_percent
            &&& final(st).max_stack == old(st).max_stack
            &&& final(st).max_threads == old(st).max_threads
            &&& final(st).panic_on_fault == old(st).panic_on_fault
            &&& final(st).memory_limit == old(st).memory_limit
        }),
{
    let prev = if st.gomaxprocs != 0 {
        st.gomaxprocs
    } else {
        let init = cpu_count(st, detected);
        st.gomaxprocs = init;
        init
    };
    if n > 0 {
        st.gomaxprocs = n as usize;
    }
    prev as i64
}

/// `Stack` — the calling goroutine's stack trace; there is no stack
/// walker, so this is a fixed placeholder.
pub fn Stack() -> (r: Vec<u8>)
    ensures
        r@ == STACK_PLACEHOLDER.spec_bytes(),
{
    let b = STACK_PLACEHOLDER.as_bytes();
    let mut v: Vec<u8> = Vec::new();
    let mut i: usize = 0;
    while i < b.len()
        invariant
            i <= b@.len(),
            v@ == b@.subrange(0, i as int),
        decreases b@.len() - i,
    {
        v.push(b[i]);
        i += 1;
    }
    assert(v@ =~= b@);
    v
}

/// A duration in nanoseconds.
pub type Duration = i64;
/// A time as nanoseconds since the epoch; 0 is the zero time.
pub type Time = i64;

/// `GCStats` — garbage collection statistics.
pub struct GCStats {
    pub LastGC: Time,
    pub NumGC: i64,
    pub PauseTotal: Duration,
    pub Pause: Vec<Duration>,
    pub PauseEnd: Vec<Time>,
    pub PauseQuantiles: Vec<Duration>,
}

impl GCStats {
    /// `new` — the zero value.
    pub fn new() -> (r: Self)
        ensures
            r.LastGC == 0 && r.NumGC == 0 && r.PauseTotal == 0,
            r.Pause@.len() == 0 && r.PauseEnd@.len() == 0 && r.PauseQuantiles@.len() == 0,
    {
        GCStats { LastGC: 0, NumGC: 0, PauseTotal: 0, Pause: Vec::new(), PauseEnd: Vec::new(), PauseQuantiles: Vec::new() }
    }
}

/// `ReadGCStats` — the statistics of a process that never collected:
/// everything zero, no history, and each requested quantile zero.
pub fn ReadGCStats(stats: &mut GCStats)
    ensures
        final(stats).LastGC == 0 && final(stats).NumGC == 0 && final(stats).PauseTotal == 0,
        final(stats).Pause@.len() == 0 && final(stats).PauseEnd@.len() == 0,
        final(stats).PauseQuantiles@.len() == old(stats).PauseQuantiles@.len(),
        forall|i: int| 0 <= i < final(stats).PauseQuantiles@.len() ==> #[trigger] final(stats).PauseQuantiles@[i] == 0,
{
    stats.LastGC = 0;
    stats.NumGC = 0;
    stats.PauseTotal = 0;
    stats.Pause = Vec::new();
    stats.PauseEnd = Vec::new();
    let n = stats.PauseQuantiles.len();
    if n > 0 {
        let mut v: Vec<Duration> = Vec::new();
        let mut i: usize = 0;
        while i < n
            invariant
                i <= n,
                v@.len() == i,
                forall|k: int| 0 <= k < i ==> #[trigger] v@[k] == 0,
            decreases n - i,
        {
            v.push(0);
            i += 1;
        }
        stats.PauseQuantiles = v;
    }
}

/// `SetGCPercent` — remember `percent`; return the previous setting.
pub fn SetGCPercent(st: &mut DebugState, percent: i64) -> (r: i64)
    ensures
        r == old(st).gc_percent,
        *final(st) == (DebugState { gc_percent: percent, ..*old(st) }),
{
    let prev = st.gc_percent;
    st.gc_percent = percent;
    prev
}

/// `FreeOSMemory` — there is no separate heap to flush: nothing to do.
pub fn FreeOSMemory() {
}

/// `SetMaxStack` — set the stack reservation of goroutines started
/// from now on; return the previous one.
pub fn SetMaxStack(st: &mut DebugState, bytes: i64) -> (r: i64)
    ensures
        r == old(st).max_stack as i64,
        *final(st) == (DebugState { max_stack: bytes as usize, ..*old(st) }),
{
    let prev = st.max_stack;
    st.max_stack = bytes as usize;
    prev as i64
}

/// `SetMaxThreads` — remember `threads`; return the previous setting.
pub fn SetMaxThreads(st: &mut DebugState, threads: i64) -> (r: i64)
    ensures
        r == old(st).max_threads,
        *final(st) == (DebugState { max_threads: threads, ..*old(st) }),
{
    let prev = st.max_threads;
    st.max_threads = threads;
    prev
}

/// `SetPanicOnFault` — remember `enabled`; return the previous setting.
pub fn SetPanicOnFault(st: &mut DebugState, enabled: bool) -> (r: bool)
    ensures
        r == old(st).panic_on_fault,
        *final(st) == (DebugState { panic_on_fault: enabled, ..*old(st) }),
{
    let prev = st.panic_on_fault;
    st.panic_on_fault = enabled;
    prev
}

/// `SetMemoryLimit` — a negative `limit` only reads the current limit;
/// otherwise it is set and the previous one returned.
pub fn SetMemoryLimit(st: &mut DebugState, limit: i64) -> (r: i64)
    ensures
        r == old(st).memory_limit,
        limit < 0 ==> *final(st) == *old(st),
        limit >= 0 ==> *final(st) == (DebugState { memory_limit: limit, ..*old(st) }),
{
    if limit < 0 {
        return st.memory_limit;
    }
    let prev = st.memory_limit;
    st.memory_limit = limit;
    prev
}

/// `SetTraceback` — tracebacks are not configurable: nothing to do.
pub fn SetTraceback(_level: &str) {
}

/// A module of the build.
pub struct Module {
    pub Path: String,
    pub Version: String,
    pub Sum: String,
}

/// A key/value setting of the build.
pub struct BuildSetting {
    pub Key: String,
    pub Value: String,
}

/// `BuildInfo` — module and build information.
pub struct BuildInfo {
    pub GoVersion: String,
    pub Path: String,
    pub Main: Module,
    pub Deps: Vec<Module>,
    pub Settings: Vec<BuildSetting>,
}

/// `ReadBuildInfo` — no build information is embedded: the zero value
/// and `false`.
pub fn ReadBuildInfo() -> (r: (BuildInfo, bool))
    ensures
        !r.1,
        r.0.GoVersion@.len() == 0 && r.0.Path@.len() == 0,
        r.0.Main.Path@.len() == 0 && r.0.Main.Version@.len() == 0 && r.0.Main.Sum@.len() == 0,
        r.0.Deps@.len() == 0 && r.0.Settings@.len() == 0,
{
    let main = Module { Path: String::new(), Version: String::new(), Sum: String::new() };
    (BuildInfo { GoVersion: String::new(), Path: String::new(), Main: main, Deps: Vec::new(), Settings: Vec::new() }, false)
}

/// Options for `SetCrashOutput`; none yet.
pub struct CrashOptions {
}

/// `SetCrashOutput` — crash reports are not duplicated: nothing to do,
/// and no error.
pub fn SetCrashOutput<F>(_f: F, _opts: CrashOptions) -> (r: Option<String>)
    ensures
        r is None,
{
    None
}

} // verus!
