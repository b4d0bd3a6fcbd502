use blink_tree::latch::LatchType;
use blink_tree::sync::{
    BinarySemaphore, BinarySemaphoreMethods, Latch, RwHold, RwLatch, RwSynchronized, Synchronized,
};
use rayon::ThreadPoolBuilder;

struct TestStruct {
    data: usize,
}

fn check_thread(sync: &Synchronized<TestStruct>, sem: &BinarySemaphore) {
    loop {
        let held = sync.latch();
        let x = held.get().data;
        if x > 50 {
            sem.post();
        }
        sync.unlatch(held);
    }
}

fn increment_thread(sync: &Synchronized<TestStruct>) {
    loop {
        let mut held = sync.latch();
        let x = held.get().data;
        held.set(TestStruct { data: x + 1 });
        sync.unlatch(held);
    }
}

#[test]
fn test_binary_semaphore_and_latch() {
    let sem = BinarySemaphore::init(false);
    let sync_struct = Synchronized::init(TestStruct { data: 0 });
    let pool = ThreadPoolBuilder::new().num_threads(8).build().unwrap();
    for i in 0..8 {
        let sync_struct = sync_struct.clone();
        let sem = sem.clone();
        if i & 1 == 0 {
            pool.spawn(move || check_thread(&sync_struct, &sem));
        } else {
            pool.spawn(move || increment_thread(&sync_struct));
        }
    }
    let state = sem.wait();
    assert!(state == true);
    let held = sync_struct.latch();
    assert!(held.get().data > 50);
    sync_struct.unlatch(held);
}

fn rw_determine(rw_sync: &RwSynchronized<TestStruct>) -> (bool, RwHold<TestStruct>) {
    let held = rw_sync.acquire_upgradable();
    (held.get().data % 3 == 0, held)
}

fn rw_check_thread(rw_sync: &RwSynchronized<TestStruct>, sem: &BinarySemaphore) {
    loop {
        let held = rw_sync.acquire_shared();
        if held.get().data > 50 {
            sem.post()
        }
        rw_sync.release_shared(held);
    }
}

fn rw_maybe_increment_thread(rw_sync: &RwSynchronized<TestStruct>) {
    loop {
        let (due, held) = rw_determine(&rw_sync);
        if due {
            let mut held = rw_sync.upgrade_shared(held);
            let x = held.get().data;
            held.set(TestStruct { data: x + 5 });
            rw_sync.release_excl(held);
            return;
        }
        rw_sync.release_upgradable(held);
    }
}

fn rw_increment_thread(rw_sync: &RwSynchronized<TestStruct>) {
    loop {
        let mut held = rw_sync.acquire_excl();
        let x = held.get().data;
        held.set(TestStruct { data: x + 1 });
        rw_sync.release_excl(held);
    }
}

#[test]
fn test_rwlatch() {
    let sem = BinarySemaphore::init(false);
    let rw_sync_struct = RwSynchronized::init(TestStruct { data: 0 });
    let pool = ThreadPoolBuilder::new().num_threads(20).build().unwrap();
    for i in 0..20 {
        let rw_sync_struct = rw_sync_struct.clone();
        let sem = sem.clone();
        if i < 5 {
            pool.spawn(move || rw_check_thread(&rw_sync_struct, &sem));
        } else if i < 10 {
            pool.spawn(move || rw_maybe_increment_thread(&rw_sync_struct));
        } else {
            pool.spawn(move || rw_increment_thread(&rw_sync_struct));
        }
    }
    let state = sem.wait();
    assert!(state == true);
    let held = rw_sync_struct.acquire_shared();
    assert!(held.get().data > 50);
    rw_sync_struct.release_shared(held);
}

#[test]
fn semaphore_that_is_set_does_not_wait() {
    let sem = BinarySemaphore::init(true);
    assert!(sem.wait());
    assert!(sem.wait());
}

#[test]
fn post_flips_the_state() {
    let sem = BinarySemaphore::init(false);
    sem.post();
    assert!(sem.wait());
    sem.post();
    sem.post();
    assert!(sem.wait());
}

#[test]
fn latched_value_is_read_and_written() {
    let cell = Synchronized::init(7u64);
    let mut held = cell.latch();
    assert_eq!(*held.get(), 7);
    held.set(9);
    assert_eq!(*held.get(), 9);
    cell.unlatch(held);
    let other = cell.clone();
    let held = other.latch();
    assert_eq!(*held.get(), 9);
    other.unlatch(held);
}

#[test]
fn shared_holds_go_together() {
    let cell = RwSynchronized::init(3u64);
    let one = cell.acquire_shared();
    let two = cell.acquire_shared();
    let three = cell.acquire_upgradable();
    assert_eq!(one.latch_type(), LatchType::Shared);
    assert_eq!(three.latch_type(), LatchType::Upgradable);
    assert_eq!(*one.get() + *two.get() + *three.get(), 9);
    cell.release_shared(one);
    cell.release_shared(two);
    let mut top = cell.upgrade_shared(three);
    assert_eq!(top.latch_type(), LatchType::Excl);
    top.set(4);
    cell.release_excl(top);
    let again = cell.acquire(LatchType::Excl);
    assert_eq!(*again.get(), 4);
    cell.release(again);
    let last = cell.acquire(LatchType::Shared);
    assert_eq!(*last.get(), 4);
    cell.release_shared(last);
}
