//! Bound on the depth of re-entrant evaluation.
//!
//! Each evaluation worker owns one `StackDepth`. Every re-entrant path
//! (function call, deep comparison, string conversion of nested values)
//! acquires a `StackGuard` with `try_inc` before descending, and hands it
//! back with `StackGuard::release` on every way out, which restores the exact
//! depth seen at acquisition.
//!
//! A guard has no `Drop`: one that is dropped without `release` (on an early
//! return or while unwinding) leaves the counter raised by one. Callers must
//! release each guard on every exit path, innermost first.
use vstd::prelude::*;

verus! {

/// Maximum number of nested guards that may be held at once.
pub const MAX_RECURSION: u32 = 200;

/// Errors of the recursion guard.
#[derive(Clone, Copy, Debug, PartialEq, Eq, Structural)]
pub enum ValueError {
    /// The depth bound was reached.
    TooManyRecursionLevel,
}

/// Depth reached by acquiring one more guard at `depth`, if the bound allows.
pub open spec fn acquired(depth: nat) -> Option<nat> {
    if depth >= MAX_RECURSION {
        None
    } else {
        Some(depth + 1)
    }
}

/// Per-worker recursion depth counter.
#[derive(Debug)]
pub struct StackDepth {
    depth: u32,
}

impl StackDepth {
    pub closed spec fn depth(&self) -> nat {
        self.depth as nat
    }

    /// A counter at depth zero.
    pub fn new() -> (r: StackDepth)
        ensures
            r.depth() == 0,
    {
        StackDepth { depth: 0 }
    }

    /// The current depth.
    pub fn get(&self) -> (r: u32)
        ensures
            r == self.depth(),
    {
        self.depth
    }
}

/// Depth before `try_inc` succeeded; restored by `release`.
#[must_use]
#[derive(Debug)]
pub struct StackGuard {
    prev_depth: u32,
}

impl StackGuard {
    pub closed spec fn prev(&self) -> nat {
        self.prev_depth as nat
    }

    /// Give the guard back: the counter returns to the depth it had when the
    /// guard was acquired.
    pub fn release(self, depth: &mut StackDepth)
        ensures
            final(depth).depth() == self.prev(),
    {
        depth.depth = self.prev_depth;
    }
}

/// Increment the depth.
fn inc(depth: &mut StackDepth) -> (r: StackGuard)
    requires
        old(depth).depth() < u32::MAX,
    ensures
        final(depth).depth() == old(depth).depth() + 1,
        r.prev() == old(depth).depth(),
{
    let prev = depth.depth;
    depth.depth = prev + 1;
    StackGuard { prev_depth: prev }
}

/// Check that the depth is below the bound.
fn check(depth: &StackDepth) -> (r: Result<(), ValueError>)
    ensures
        r is Ok <==> depth.depth() < MAX_RECURSION,
        r matches Err(e) ==> e == ValueError::TooManyRecursionLevel,
{
    if depth.depth >= MAX_RECURSION {
        return Err(ValueError::TooManyRecursionLevel);
    }
    Ok(())
}

/// Try to go one level deeper. On success the returned guard remembers the
/// previous depth; at the bound the counter is left as it is.
pub fn try_inc(depth: &mut StackDepth) -> (r: Result<StackGuard, ValueError>)
    ensures
        r is Ok <==> acquired(old(depth).depth()) is Some,
        r matches Ok(g) ==> g.prev() == old(depth).depth() && Some(final(depth).depth())
            == acquired(old(depth).depth()),
        r matches Err(e) ==> e == ValueError::TooManyRecursionLevel && final(depth).depth()
            == old(depth).depth(),
{
    match check(depth) {
        Ok(()) => Ok(inc(depth)),
        Err(e) => Err(e),
    }
}

} // verus!
