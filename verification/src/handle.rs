use vstd::prelude::*;

verus! {

/// Exclusive ownership of one long-lived subscription resource, identified
/// by the raw token the transport layer handed out.
///
/// The only operation after construction is a single, consuming
/// [`SubscriptionHandle::release`]: the type is neither copyable nor
/// clonable, so releasing twice, or using a handle after releasing it, is
/// ruled out by ownership rather than by the holder's discipline.
pub struct SubscriptionHandle {
    raw: u64,
}

impl SubscriptionHandle {
    /// The raw token this handle owns.
    pub closed spec fn id(self) -> u64 {
        self.raw
    }

    /// Takes exclusive ownership of a raw subscription token.
    pub fn new(raw: u64) -> (h: SubscriptionHandle)
        ensures
            h.id() == raw,
    {
        SubscriptionHandle { raw }
    }

    /// Releases the handle, permanently: consumes it and hands the raw
    /// token back exactly once, for the boundary layer to free.
    pub fn release(self) -> (r: u64)
        ensures
            r == self.id(),
    {
        self.raw
    }
}

} // verus!
