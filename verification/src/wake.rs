use vstd::prelude::*;

verus! {

/// The std type of a task's waker; values of it are carried through unopened.
#[verifier::external_type_specification]
#[verifier::external_body]
pub struct ExWaker(std::task::Waker);

/// The wakers on which `wake_by_ref` has been called through `wake`, in call order. Only
/// `wake` extends it: the log is private to this module and nothing else here changes it.
pub struct WakeLog {
    woken: Ghost<Seq<std::task::Waker>>,
}

impl WakeLog {
    /// The wakers passed to `wake` with this log, in call order.
    pub closed spec fn woken(&self) -> Seq<std::task::Waker> {
        self.woken@
    }

    /// A log of no call.
    pub fn new() -> (log: Self)
        ensures
            log.woken() == Seq::<std::task::Waker>::empty(),
    {
        WakeLog { woken: Ghost(Seq::empty()) }
    }
}

/// Calls `std::task::Waker::wake_by_ref` on `waker`, which schedules the waker's task to
/// be polled again, and records the call in `log`: the log gains `waker` at its end. It
/// returns nothing and changes no other value the library holds.
#[verifier::external_body]
pub fn wake(log: &mut WakeLog, waker: &std::task::Waker)
    ensures
        final(log).woken() == old(log).woken().push(*waker),
{
    waker.wake_by_ref();
}

} // verus!
