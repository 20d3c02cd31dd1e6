//! The execution tracer's switch. There is no execution tracer, so
//! starting one always fails and there is never one to stop.
use vstd::prelude::*;

verus! {

/// The error `Start` reports.
pub const TRACE_UNSUPPORTED: &'static str = "execution tracing not supported by the goish runtime";

/// `trace.Start`: tracing cannot begin; the error says so.
pub fn Start() -> (err: &'static str)
    ensures
        err@ == TRACE_UNSUPPORTED@,
{
    TRACE_UNSUPPORTED
}

/// `trace.Stop`: there is no trace to stop.
pub fn Stop() {
}

} // verus!
