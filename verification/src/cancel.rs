//! Cooperative cancellation for long-running measurement work. Workers check
//! the token at SAFE boundaries — between trial rounds, bench models, eval
//! items — so cleanup (preset restore, model unload) always runs; the current
//! HTTP call is allowed to finish.
use crate::text::copy_text;
use vstd::prelude::*;
use vstd::string::*;

verus! {

/// What a cancelled run ends with.
pub const CANCELLED: &'static str = "cancelled by user — partial results are kept, config restored";

/// A flag that its clones share. What a load sees depends on the stores of
/// other holders, so nothing is claimed of the flag's value.
#[derive(Clone, Debug)]
pub struct CancelToken {
    flag: std::sync::Arc<std::sync::atomic::AtomicBool>,
}

/// What a check at a safe boundary gives.
pub fn check_of(cancelled: bool) -> (r: Result<(), String>)
    ensures
        match r {
            Ok(_) => !cancelled,
            Err(e) => cancelled && e@ == CANCELLED@,
        },
{
    if cancelled {
        Err(copy_text(CANCELLED))
    } else {
        Ok(())
    }
}

impl Default for CancelToken {
    fn default() -> (r: CancelToken) {
        CancelToken { flag: std::sync::Arc::new(std::sync::atomic::AtomicBool::new(false)) }
    }
}

impl CancelToken {
    /// Asks every holder of the token to stop.
    pub fn cancel(&self) {
        self.flag.store(true, std::sync::atomic::Ordering::Relaxed);
    }

    /// Whether a holder asked to stop.
    pub fn is_cancelled(&self) -> (r: bool) {
        self.flag.load(std::sync::atomic::Ordering::Relaxed)
    }

    /// Bail with a recognizable message at a safe boundary.
    pub fn check(&self) -> (r: Result<(), String>)
        ensures
            r is Err ==> r->Err_0@ == CANCELLED@,
    {
        check_of(self.is_cancelled())
    }
}

} // verus!
