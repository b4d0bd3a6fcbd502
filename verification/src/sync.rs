//! The three latch primitives: a binary signal, a cell with one exclusive
//! mode, and a cell with shared, upgradable and exclusive modes.
//!
//! A latch is taken by a call that hands out a token and is given up by the
//! call that takes the token back, so a latch taken in one function can be
//! given up in another, and none can be given up that was not taken. A token
//! names the cell that it is for. The locks themselves are those of
//! `parking_lot`; what this module claims of them stands in the contracts of
//! the private functions at its end.

pub use crate::latch::LatchType;
use parking_lot::lock_api::{
    ArcMutexGuard, ArcRwLockReadGuard, ArcRwLockUpgradableReadGuard, ArcRwLockWriteGuard,
};
use parking_lot::{Condvar, Mutex, MutexGuard, RawMutex, RawRwLock, RwLock};
use std::sync::Arc;
use vstd::prelude::*;

verus! {

/// `parking_lot`'s mutex, which is `lock_api`'s over a raw mutex.
#[verifier::external_type_specification]
#[verifier::external_body]
#[verifier::reject_recursive_types(R)]
#[verifier::reject_recursive_types(T)]
pub struct ExMutex<R, T: ?Sized>(parking_lot::lock_api::Mutex<R, T>);

/// `parking_lot`'s reader-writer lock, which is `lock_api`'s over a raw lock.
#[verifier::external_type_specification]
#[verifier::external_body]
#[verifier::reject_recursive_types(R)]
#[verifier::reject_recursive_types(T)]
pub struct ExRwLock<R, T: ?Sized>(parking_lot::lock_api::RwLock<R, T>);

/// `parking_lot`'s raw mutex.
#[verifier::external_type_specification]
#[verifier::external_body]
pub struct ExRawMutex(RawMutex);

/// `parking_lot`'s raw reader-writer lock.
#[verifier::external_type_specification]
#[verifier::external_body]
pub struct ExRawRwLock(RawRwLock);

/// `parking_lot`'s condition variable.
#[verifier::external_type_specification]
#[verifier::external_body]
pub struct ExCondvar(Condvar);

/// The hold on the flag of a binary semaphore: `parking_lot`'s `MutexGuard`
/// over a `bool`. The lock is given up when the hold is dropped.
#[verifier::external_body]
pub struct FlagHold<'a> {
    guard: MutexGuard<'a, bool>,
}

/// The flag that a hold on it guards. While the hold lasts no other thread
/// can write the flag, so the flag goes with the hold.
pub uninterp spec fn flag_under(hold: FlagHold) -> bool;

/// The hold on a `Synchronized`: `lock_api`'s `ArcMutexGuard`. The lock is
/// given up when the hold is dropped.
#[verifier::external_body]
#[verifier::reject_recursive_types(T)]
pub struct LatchGuard<T> {
    guard: ArcMutexGuard<RawMutex, T>,
}

/// A shared hold on a `RwSynchronized`: `lock_api`'s `ArcRwLockReadGuard`.
#[verifier::external_body]
#[verifier::reject_recursive_types(T)]
pub struct SharedGuard<T> {
    guard: ArcRwLockReadGuard<RawRwLock, T>,
}

/// An upgradable hold on a `RwSynchronized`: `lock_api`'s
/// `ArcRwLockUpgradableReadGuard`.
#[verifier::external_body]
#[verifier::reject_recursive_types(T)]
pub struct UpgradableGuard<T> {
    guard: ArcRwLockUpgradableReadGuard<RawRwLock, T>,
}

/// An exclusive hold on a `RwSynchronized`: `lock_api`'s
/// `ArcRwLockWriteGuard`.
#[verifier::external_body]
#[verifier::reject_recursive_types(T)]
pub struct ExclGuard<T> {
    guard: ArcRwLockWriteGuard<RawRwLock, T>,
}

/// A flag with two states that threads can wait on.
pub struct BinarySemaphore {
    cell: Arc<(Mutex<bool>, Condvar)>,
}

/// A value behind a lock with one, exclusive, mode.
#[verifier::reject_recursive_types(T)]
pub struct Synchronized<T> {
    cell: Arc<Mutex<T>>,
}

/// A value behind a lock with a shared, an upgradable and an exclusive mode.
#[verifier::reject_recursive_types(T)]
pub struct RwSynchronized<T> {
    cell: Arc<RwLock<T>>,
}

/// The token for a latched `Synchronized`: the hold, and the cell that it is
/// a hold on. The latch is given up when the token is handed back.
#[verifier::reject_recursive_types(T)]
pub struct Latched<T> {
    cell: Synchronized<T>,
    guard: LatchGuard<T>,
}

/// A hold on a `RwSynchronized` in one of the three modes.
#[verifier::reject_recursive_types(T)]
pub enum RwGuard<T> {
    Shared(SharedGuard<T>),
    Upgradable(UpgradableGuard<T>),
    Excl(ExclGuard<T>),
}

/// The token for a latched `RwSynchronized`: the hold, in the mode it was
/// latched in, and the cell that it is a hold on. The latch is given up when
/// the token is handed back.
#[verifier::reject_recursive_types(T)]
pub struct RwHold<T> {
    cell: RwSynchronized<T>,
    guard: RwGuard<T>,
}

impl<T> RwHold<T> {
    /// The mode of the hold.
    pub closed spec fn mode(&self) -> LatchType {
        match self.guard {
            RwGuard::Shared(_) => LatchType::Shared,
            RwGuard::Upgradable(_) => LatchType::Upgradable,
            RwGuard::Excl(_) => LatchType::Excl,
        }
    }

    /// The cell that the hold is on.
    pub closed spec fn cell(&self) -> RwSynchronized<T> {
        self.cell
    }

    /// The mode of the hold.
    pub fn latch_type(&self) -> (r: LatchType)
        ensures
            r == self.mode(),
    {
        match &self.guard {
            RwGuard::Shared(_) => LatchType::Shared,
            RwGuard::Upgradable(_) => LatchType::Upgradable,
            RwGuard::Excl(_) => LatchType::Excl,
        }
    }

    /// The value behind the latch, which any hold may read.
    pub fn get(&self) -> &T {
        match &self.guard {
            RwGuard::Shared(g) => read_shared(g),
            RwGuard::Upgradable(g) => read_upgradable(g),
            RwGuard::Excl(g) => read_excl(g),
        }
    }

    /// Replaces the value behind the latch, which takes an exclusive hold.
    pub fn set(&mut self, value: T)
        requires
            old(self).mode() == LatchType::Excl,
        ensures
            final(self).mode() == LatchType::Excl,
            final(self).cell() == old(self).cell(),
    {
        match &mut self.guard {
            RwGuard::Excl(g) => {
                *excl_mut(g) = value;
            },
            _ => {},
        }
    }

    /// The value behind the latch, to be changed in place, which takes an
    /// exclusive hold. Any other hold gives nothing.
    pub fn get_mut(&mut self) -> (r: Option<&mut T>)
        ensures
            r.is_some() == (old(self).mode() == LatchType::Excl),
            final(self).mode() == old(self).mode(),
            final(self).cell() == old(self).cell(),
    {
        match &mut self.guard {
            RwGuard::Excl(g) => Some(excl_mut(g)),
            _ => None,
        }
    }
}

impl<T> Latched<T> {
    /// The cell that the token is for.
    pub closed spec fn cell(&self) -> Synchronized<T> {
        self.cell
    }

    /// The value behind the latch.
    pub fn get(&self) -> &T {
        read_latched(&self.guard)
    }

    /// Replaces the value behind the latch.
    pub fn set(&mut self, value: T)
        ensures
            final(self).cell() == old(self).cell(),
    {
        *latched_mut(&mut self.guard) = value;
    }

    /// The value behind the latch, to be changed in place.
    pub fn get_mut(&mut self) -> (r: &mut T)
        ensures
            final(self).cell() == old(self).cell(),
    {
        latched_mut(&mut self.guard)
    }
}

/// The operations of a binary semaphore.
pub trait BinarySemaphoreMethods: Sized {
    /// A semaphore in state `state`.
    fn init(state: bool) -> Self;

    /// Flips the state and wakes one waiting thread.
    fn post(&self);

    /// Waits until the state is true, and gives the state back.
    fn wait(&self) -> (r: bool)
        ensures
            r,
    ;
}

/// The operations of a cell with one exclusive mode.
pub trait Latch<T>: Sized {
    /// `held` is a token for a latch on this cell.
    spec fn issued(&self, held: &Latched<T>) -> bool;

    /// A cell that holds `item`.
    fn init(item: T) -> Self;

    /// Waits until the latch is free, takes it and hands out the token for
    /// it.
    fn latch(&self) -> (held: Latched<T>)
        ensures
            self.issued(&held),
    ;

    /// Gives up the latch that `held` is the token for, which is a latch on
    /// this cell: the token ends here, and the lock is given up with it.
    fn unlatch(&self, held: Latched<T>)
        requires
            self.issued(&held),
    ;
}

/// The operations of a cell with a shared, an upgradable and an exclusive
/// mode. A thread that holds the cell must not ask for it again in a mode
/// that its own hold excludes: it would wait for itself.
pub trait RwLatch<T>: Sized {
    /// `held` is a token for a latch on this cell.
    spec fn issued(&self, held: &RwHold<T>) -> bool;

    /// A cell that holds `item`.
    fn init(item: T) -> Self;

    /// Waits until no thread holds the latch exclusively, and takes it
    /// shared.
    fn acquire_shared(&self) -> (held: RwHold<T>)
        ensures
            held.mode() == LatchType::Shared,
            self.issued(&held),
    ;

    /// Waits until no thread holds the latch upgradable or exclusively, and
    /// takes it upgradable.
    fn acquire_upgradable(&self) -> (held: RwHold<T>)
        ensures
            held.mode() == LatchType::Upgradable,
            self.issued(&held),
    ;

    /// Waits until no thread holds the latch, and takes it exclusively.
    fn acquire_excl(&self) -> (held: RwHold<T>)
        ensures
            held.mode() == LatchType::Excl,
            self.issued(&held),
    ;

    /// Gives up a shared hold on this cell: the token ends here, and the
    /// lock is given up with it.
    fn release_shared(&self, held: RwHold<T>)
        requires
            held.mode() == LatchType::Shared,
            self.issued(&held),
    ;

    /// Gives up an upgradable hold on this cell, in the same way.
    fn release_upgradable(&self, held: RwHold<T>)
        requires
            held.mode() == LatchType::Upgradable,
            self.issued(&held),
    ;

    /// Gives up an exclusive hold on this cell, in the same way.
    fn release_excl(&self, held: RwHold<T>)
        requires
            held.mode() == LatchType::Excl,
            self.issued(&held),
    ;

    /// Turns an upgradable hold into an exclusive one on the same cell,
    /// waiting for the shared holders to leave, with no moment between the
    /// two at which another thread could take the latch exclusively.
    fn upgrade_shared(&self, held: RwHold<T>) -> (r: RwHold<T>)
        requires
            held.mode() == LatchType::Upgradable,
        ensures
            r.mode() == LatchType::Excl,
            r.cell() == held.cell(),
    ;
}

impl BinarySemaphoreMethods for BinarySemaphore {
    fn init(state: bool) -> BinarySemaphore {
        BinarySemaphore { cell: Arc::new((new_mutex(state), new_condvar())) }
    }

    fn post(&self) {
        let mut hold = lock_flag(&self.cell.0);
        flip(&mut hold);
        notify_one(&self.cell.1);
    }

    fn wait(&self) -> (r: bool) {
        let mut hold = lock_flag(&self.cell.0);
        wait_until_set(&self.cell.1, &mut hold);
        read_flag(&hold)
    }
}

impl Clone for BinarySemaphore {
    fn clone(&self) -> (r: BinarySemaphore)
        ensures
            r == *self,
    {
        BinarySemaphore { cell: share(&self.cell) }
    }
}

impl<T> Latch<T> for Synchronized<T> {
    open spec fn issued(&self, held: &Latched<T>) -> bool {
        held.cell() == *self
    }

    fn init(item: T) -> Synchronized<T> {
        Synchronized { cell: Arc::new(new_mutex(item)) }
    }

    fn latch(&self) -> (held: Latched<T>) {
        let guard = lock_arc(&self.cell);
        Latched { cell: Synchronized { cell: share(&self.cell) }, guard }
    }

    fn unlatch(&self, held: Latched<T>) {
    }
}

impl<T> Clone for Synchronized<T> {
    fn clone(&self) -> (r: Synchronized<T>)
        ensures
            r == *self,
    {
        Synchronized { cell: share(&self.cell) }
    }
}

impl<T> RwLatch<T> for RwSynchronized<T> {
    open spec fn issued(&self, held: &RwHold<T>) -> bool {
        held.cell() == *self
    }

    fn init(item: T) -> RwSynchronized<T> {
        RwSynchronized { cell: Arc::new(new_rwlock(item)) }
    }

    fn acquire_shared(&self) -> (held: RwHold<T>) {
        let guard = RwGuard::Shared(read_arc(&self.cell));
        RwHold { cell: RwSynchronized { cell: share(&self.cell) }, guard }
    }

    fn acquire_upgradable(&self) -> (held: RwHold<T>) {
        let guard = RwGuard::Upgradable(upgradable_read_arc(&self.cell));
        RwHold { cell: RwSynchronized { cell: share(&self.cell) }, guard }
    }

    fn acquire_excl(&self) -> (held: RwHold<T>) {
        let guard = RwGuard::Excl(write_arc(&self.cell));
        RwHold { cell: RwSynchronized { cell: share(&self.cell) }, guard }
    }

    fn release_shared(&self, held: RwHold<T>) {
    }

    fn release_upgradable(&self, held: RwHold<T>) {
    }

    fn release_excl(&self, held: RwHold<T>) {
    }

    fn upgrade_shared(&self, held: RwHold<T>) -> (r: RwHold<T>) {
        let RwHold { cell, guard } = held;
        match guard {
            RwGuard::Upgradable(g) => RwHold { cell, guard: RwGuard::Excl(upgrade_guard(g)) },
            other => RwHold { cell, guard: other },
        }
    }
}

impl<T> Clone for RwSynchronized<T> {
    fn clone(&self) -> (r: RwSynchronized<T>)
        ensures
            r == *self,
    {
        RwSynchronized { cell: share(&self.cell) }
    }
}

impl<T> RwSynchronized<T> {
    /// Takes the latch in mode `latch_type`.
    pub fn acquire(&self, latch_type: LatchType) -> (held: RwHold<T>)
        ensures
            held.mode() == latch_type,
            self.issued(&held),
    {
        match latch_type {
            LatchType::Shared => self.acquire_shared(),
            LatchType::Upgradable => self.acquire_upgradable(),
            LatchType::Excl => self.acquire_excl(),
        }
    }

    /// Gives up the latch that `held` is the token for, which is a latch on
    /// this cell, whatever its mode. The token ends here, and the lock is
    /// given up with it.
    pub fn release(&self, held: RwHold<T>)
        requires
            self.issued(&held),
    {
    }
}

/// Flips the flag that `hold` guards: what a post does to the state of a
/// semaphore while it holds the flag.
pub fn flip(hold: &mut FlagHold)
    ensures
        flag_under(*final(hold)) == !flag_under(*old(hold)),
{
    let state = read_flag(hold);
    write_flag(hold, !state);
}

/// Whether a semaphore in state `state` keeps a thread waiting.
pub fn is_unset(state: bool) -> (r: bool)
    ensures
        r == !state,
{
    !state
}

/// `Mutex::new`: a mutex that guards `item`. Nothing is claimed of it.
#[verifier::external_body]
fn new_mutex<T>(item: T) -> Mutex<T> {
    Mutex::new(item)
}

/// `RwLock::new`: a reader-writer lock that guards `item`. Nothing is claimed
/// of it.
#[verifier::external_body]
fn new_rwlock<T>(item: T) -> RwLock<T> {
    RwLock::new(item)
}

/// `Condvar::new`: a condition variable. Nothing is claimed of it.
#[verifier::external_body]
fn new_condvar() -> Condvar {
    Condvar::new()
}

/// `Arc::clone`: another handle to the same cell.
#[verifier::external_body]
fn share<T>(cell: &Arc<T>) -> (r: Arc<T>)
    ensures
        r == *cell,
{
    Arc::clone(cell)
}

/// `Mutex::lock`: waits for the mutex and hands out the hold on the flag.
/// Nothing is claimed of the flag that is found.
#[verifier::external_body]
fn lock_flag<'a>(mutex: &'a Mutex<bool>) -> FlagHold<'a> {
    FlagHold { guard: mutex.lock() }
}

/// Reading through a `MutexGuard`: the flag that the hold guards.
#[verifier::external_body]
fn read_flag(hold: &FlagHold) -> (r: bool)
    ensures
        r == flag_under(*hold),
{
    *hold.guard
}

/// Writing through a `MutexGuard`: the hold then guards the flag that was
/// written.
#[verifier::external_body]
fn write_flag(hold: &mut FlagHold, state: bool)
    ensures
        flag_under(*final(hold)) == state,
{
    *hold.guard = state;
}

/// `Condvar::notify_one`: wakes one thread that waits on the condition
/// variable, if there is one.
#[verifier::external_body]
fn notify_one(bell: &Condvar) {
    bell.notify_one();
}

/// `Condvar::wait_while` with the condition that the flag is unset: gives
/// the mutex up, waits for a notification and takes the mutex again, as often
/// as the flag is found unset. When it returns the flag is set and the mutex
/// is held. It would panic if threads waited on one condition variable with
/// two mutexes, which a semaphore, having one of each, never does.
#[verifier::external_body]
fn wait_until_set(bell: &Condvar, hold: &mut FlagHold)
    ensures
        flag_under(*final(hold)),
{
    bell.wait_while(&mut hold.guard, |state: &mut bool| is_unset(*state));
}

/// `Mutex::lock_arc`: waits for the mutex and hands out the hold.
#[verifier::external_body]
fn lock_arc<T>(cell: &Arc<Mutex<T>>) -> LatchGuard<T> {
    LatchGuard { guard: cell.lock_arc() }
}

/// Reading through an `ArcMutexGuard`. Nothing is claimed of the value.
#[verifier::external_body]
fn read_latched<T>(held: &LatchGuard<T>) -> &T {
    &*held.guard
}

/// Borrowing through an `ArcMutexGuard` for writing. Nothing is claimed of
/// the value.
#[verifier::external_body]
fn latched_mut<T>(held: &mut LatchGuard<T>) -> &mut T {
    &mut *held.guard
}

/// `RwLock::read_arc`: waits for shared access and hands out the hold.
#[verifier::external_body]
fn read_arc<T>(cell: &Arc<RwLock<T>>) -> SharedGuard<T> {
    SharedGuard { guard: cell.read_arc() }
}

/// `RwLock::upgradable_read_arc`: waits for upgradable access and hands out
/// the hold.
#[verifier::external_body]
fn upgradable_read_arc<T>(cell: &Arc<RwLock<T>>) -> UpgradableGuard<T> {
    UpgradableGuard { guard: cell.upgradable_read_arc() }
}

/// `RwLock::write_arc`: waits for exclusive access and hands out the hold.
#[verifier::external_body]
fn write_arc<T>(cell: &Arc<RwLock<T>>) -> ExclGuard<T> {
    ExclGuard { guard: cell.write_arc() }
}

/// `ArcRwLockUpgradableReadGuard::upgrade`: waits for the shared holders to
/// leave and turns the upgradable hold into an exclusive one.
#[verifier::external_body]
fn upgrade_guard<T>(held: UpgradableGuard<T>) -> ExclGuard<T> {
    ExclGuard { guard: ArcRwLockUpgradableReadGuard::upgrade(held.guard) }
}

/// Reading through an `ArcRwLockReadGuard`. Nothing is claimed of the value.
#[verifier::external_body]
fn read_shared<T>(held: &SharedGuard<T>) -> &T {
    &*held.guard
}

/// Reading through an `ArcRwLockUpgradableReadGuard`. Nothing is claimed of
/// the value.
#[verifier::external_body]
fn read_upgradable<T>(held: &UpgradableGuard<T>) -> &T {
    &*held.guard
}

/// Reading through an `ArcRwLockWriteGuard`. Nothing is claimed of the value.
#[verifier::external_body]
fn read_excl<T>(held: &ExclGuard<T>) -> &T {
    &*held.guard
}

/// Borrowing through an `ArcRwLockWriteGuard` for writing. Nothing is
/// claimed of the value.
#[verifier::external_body]
fn excl_mut<T>(held: &mut ExclGuard<T>) -> &mut T {
    &mut *held.guard
}

} // verus!
