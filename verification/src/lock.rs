use crate::memory::Memory;
use crate::talloc::Talloc;
use spin::mutex::Mutex;
use spin::relax::Spin;
use vstd::prelude::*;

verus! {

/// The spin lock `spin::Mutex`. What it holds changes behind shared references, so
/// a lock as such tells nothing of what is in it.
#[verifier::external_type_specification]
#[verifier::external_body]
#[verifier::reject_recursive_types(T)]
#[verifier::reject_recursive_types(R)]
pub struct ExMutex<T: ?Sized, R>(Mutex<T, R>);

/// `spin::relax::Spin`, the way in which the lock waits.
#[verifier::external_type_specification]
#[verifier::external_body]
pub struct ExSpin(Spin);

/// `spin::Mutex::new` puts `value` into a lock that nobody holds. Nothing is claimed
/// of the lock: what it holds is what the last one to unlock it left there, and
/// that is not a function of the lock.
pub assume_specification<T, R>[ Mutex::<T, R>::new ](value: T) -> (lock: Mutex<T, R>);

/// An allocator behind a spin lock.
#[verifier::reject_recursive_types(M)]
#[verifier::reject_recursive_types(H)]
pub struct Tallock<M, H>(pub Mutex<Talloc<M, H>>);

impl<M: Memory, H> Talloc<M, H> {
    /// Puts the allocator behind a spin lock, from which it can be borrowed by one user
    /// at a time: the lock is one that `Mutex::new` gives for this allocator.
    pub fn spin_lock(self) -> (lock: Tallock<M, H>)
        ensures
            call_ensures(Mutex::<Talloc<M, H>, Spin>::new, (self,), lock.0),
    {
        Tallock(Mutex::new(self))
    }
}

} // verus!
