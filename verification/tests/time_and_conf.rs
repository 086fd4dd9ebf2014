//! Durations, byte counts and the syscall service identifiers.

use bern_kernel::conf::Bytes;
use bern_kernel::syscall::Service;
use bern_kernel::time::Duration;

#[test]
fn durations_count_ticks() {
    assert_eq!(Duration::from_millis(250).ticks(), 250);
    assert_eq!(Duration::infinite().ticks(), u64::MAX);
}

#[test]
fn byte_units_scale_by_powers_of_two() {
    assert_eq!(Bytes::from_B(17).count(), 17);
    assert_eq!(Bytes::from_kB(3).count(), 3 * 1024);
    assert_eq!(Bytes::from_MB(2).count(), 2 * 1024 * 1024);
    assert_eq!(Bytes::from_GB(1).count(), 1024 * 1024 * 1024);
}

#[test]
fn service_identifiers_are_stable() {
    assert_eq!(Service::MoveClosureToStack.service_id(), 0);
    assert_eq!(Service::TaskSpawn.service_id(), 1);
    assert_eq!(Service::TaskSleep.service_id(), 2);
    assert_eq!(Service::TaskYield.service_id(), 3);
    assert_eq!(Service::TaskExit.service_id(), 4);
    assert_eq!(Service::EventRegister.service_id(), 5);
    assert_eq!(Service::EventAwait.service_id(), 6);
    assert_eq!(Service::EventFire.service_id(), 7);
}
