//! Decides which designated "mark files" of a Git working copy may be staged
//! automatically, and checks that doing so cannot disturb a change that is
//! already in progress.
//!
//! The library works on a snapshot of the working copy's status: each entry is
//! a path (when representable) together with libgit2-style status bits. Opening
//! the repository, querying its status and mutating its index are left to the
//! caller, which then carries out the plan that [`stager::plan_staging`] returns.

use vstd::prelude::*;

pub mod stager;
pub mod status;
