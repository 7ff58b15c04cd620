//! A cheap shareable boolean flag for cross-thread signalling.

use std::sync::atomic::{AtomicBool, Ordering};
use std::sync::Arc;
use vstd::prelude::*;

verus! {

/// A clonable flag backed by an atomic boolean; all clones observe the same
/// flag.  Because the flag is shared between threads, no sequential
/// contract can pin the value a load returns.
#[derive(Clone, Debug)]
pub struct AtomicFlag(Arc<AtomicBool>);

impl AtomicFlag {
    /// A fresh, unset flag.
    pub fn new() -> Self {
        AtomicFlag(Arc::new(AtomicBool::new(false)))
    }

    /// Raises the flag.
    pub fn set(&self) {
        self.0.store(true, Ordering::Release);
    }

    /// Reads the flag.
    pub fn check(&self) -> bool {
        self.0.load(Ordering::Acquire)
    }

    /// Clears the flag.
    pub fn reset(&self) {
        self.0.store(false, Ordering::Release);
    }
}

} // verus!
