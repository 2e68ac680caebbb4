//! What the listener decides: how many connections it serves at once, and how
//! long it waits after a failed accept.
use vstd::prelude::*;

verus! {

/// The address that the server listens on unless told otherwise.
pub const DEFAULT_IP: &'static str = "0.0.0.0";

/// The port that the server listens on unless told otherwise.
pub const DEFAULT_PORT: u16 = 1222;

/// The number of connections that are served at the same time.
pub const MAX_CONNECTIONS: usize = 1500;

/// The room in the queue of frames that wait to be written to a connection.
pub const OUTBOUND_CAPACITY: usize = 1024;

/// The longest wait after a failed accept, in seconds.
pub const MAX_BACKOFF: u64 = 64;

/// Two to the power `n`.
pub open spec fn pow2(n: nat) -> nat
    decreases n,
{
    if n == 0 {
        1
    } else {
        2 * pow2((n - 1) as nat)
    }
}

/// The wait after the accept has failed `failures` times in a row, in
/// seconds: one second after the first failure and twice as long after each
/// further one, up to the longest wait. After that the listener gives up.
pub open spec fn backoff_after(failures: nat) -> Option<u64> {
    if 1 <= failures <= 7 {
        Some(pow2((failures - 1) as nat) as u64)
    } else {
        None
    }
}

/// The waits between attempts to accept a connection.
#[derive(Debug)]
pub struct Backoff {
    seconds: u64,
    failures: u8,
}

impl Backoff {
    /// How often the accept has failed in a row.
    pub closed spec fn failures(&self) -> nat {
        self.failures as nat
    }

    /// What holds of every value: the next wait is the one that belongs to the
    /// number of failures, and a listener that gave up stays so.
    #[verifier::type_invariant]
    spec fn wf(&self) -> bool {
        &&& self.failures <= 7
        &&& self.seconds == pow2(self.failures as nat)
    }

    /// No failure yet.
    pub fn new() -> (b: Backoff)
        ensures
            b.failures() == 0,
    {
        Backoff { seconds: 1, failures: 0 }
    }

    /// Takes note that a connection was accepted: the next failure counts as
    /// the first again.
    pub fn reset(&mut self)
        ensures
            final(self).failures() == 0,
    {
        *self = Backoff::new();
    }

    /// Takes note of a failed accept. Gives the seconds to wait before the
    /// next attempt, or nothing where the listener has to give up: after the
    /// longest wait has been used.
    pub fn on_error(&mut self) -> (wait: Option<u64>)
        ensures
            wait == backoff_after(old(self).failures() + 1),
            wait is Some ==> final(self).failures() == old(self).failures() + 1,
            wait is None ==> final(self).failures() == old(self).failures(),
    {
        proof {
            use_type_invariant(&*self);
            lemma_pow2_values();
        }
        if self.seconds > MAX_BACKOFF {
            return None;
        }
        let wait: u64 = self.seconds;
        *self = Backoff { seconds: wait * 2, failures: self.failures + 1 };
        Some(wait)
    }
}

/// The powers of two up to the one past the longest wait.
pub proof fn lemma_pow2_values()
    ensures
        pow2(0) == 1,
        pow2(1) == 2,
        pow2(2) == 4,
        pow2(3) == 8,
        pow2(4) == 16,
        pow2(5) == 32,
        pow2(6) == 64,
        pow2(7) == 128,
{
    reveal_with_fuel(pow2, 9);
}

} // verus!
