use vstd::prelude::*;

use std::sync::atomic::{AtomicBool, Ordering};
use std::sync::Arc;

verus! {

/// A cooperative cancellation flag shared by all its clones. Setting it is a
/// release store and reading it an acquire load, so a worker that polls it sees
/// a cancellation in finite time. The flag is shared across threads, so its
/// value is not modelled here: a read tells only what was seen at that moment.
#[derive(Clone)]
pub struct CancellationToken {
    should_cancel: Arc<AtomicBool>,
}

impl CancellationToken {
    /// A token that is not cancelled.
    pub fn new() -> (r: Self) {
        CancellationToken { should_cancel: Arc::new(AtomicBool::new(false)) }
    }

    /// Cancels this token and every clone of it; doing it again changes nothing.
    pub fn cancel(&mut self) {
        self.should_cancel.store(true, Ordering::Release);
    }

    /// Whether this token or a clone of it was cancelled.
    pub fn cancelled(&self) -> (r: bool) {
        self.should_cancel.load(Ordering::Acquire)
    }
}

} // verus!
