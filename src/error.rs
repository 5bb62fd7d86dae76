use vstd::prelude::*;

verus! {

/// Why a compilation was aborted. Every error is fatal: no partial graph is
/// ever produced.
#[derive(Debug, PartialEq, Eq, Structural)]
pub enum CompileError {
    /// A stop point (of a journey pattern or a passing time) has no canonical node.
    UnresolvedStopReference(u64),
    /// A service journey's day type has no operating-period assignment.
    MissingCalendarAssignment(u64),
    /// An operating period (by id or by global index) has no concrete record.
    MissingOperatingPeriod(u64),
    /// A journey's pattern, line or authority reference has no record.
    UnresolvedLineReference(u64),
    /// A fixed-width field (time, date, day bitmap) does not parse.
    MalformedField,
}

} // verus!
