use replicon_core::confirmed::Confirmed;
use replicon_core::tick::RepliconTick;

#[test]
fn get() {
    let confirmed = Confirmed::new(RepliconTick(1));

    assert_eq!(confirmed.get(RepliconTick(0)), false);
    assert_eq!(confirmed.get(RepliconTick(1)), true);
    assert_eq!(confirmed.get(RepliconTick(2)), false);
    assert_eq!(confirmed.get(RepliconTick(u32::MAX)), false);
}

#[test]
fn set_previous() {
    let mut confirmed = Confirmed::new(RepliconTick(1));

    confirmed.set(RepliconTick(0));

    assert_eq!(confirmed.get(RepliconTick(0)), true);
    assert_eq!(confirmed.get(RepliconTick(1)), true);
    assert_eq!(confirmed.get(RepliconTick(2)), false);
}

#[test]
fn set_next() {
    let mut confirmed = Confirmed::new(RepliconTick(1));

    confirmed.set(RepliconTick(2));

    assert_eq!(confirmed.get(RepliconTick(0)), false);
    assert_eq!(confirmed.get(RepliconTick(1)), true);
    assert_eq!(confirmed.get(RepliconTick(2)), true);
}

#[test]
fn set_with_resize() {
    let mut confirmed = Confirmed::new(RepliconTick(1));

    confirmed.set(RepliconTick(65));

    assert_eq!(confirmed.get(RepliconTick(0)), true);
    assert_eq!(confirmed.get(RepliconTick(1)), true);
    assert_eq!(confirmed.get(RepliconTick(2)), false);
    assert_eq!(confirmed.get(RepliconTick(64)), false);
    assert_eq!(confirmed.get(RepliconTick(65)), true);
    assert_eq!(confirmed.get(RepliconTick(66)), false);
}

#[test]
fn set_with_overflow() {
    let mut confirmed = Confirmed::new(RepliconTick(u32::MAX));

    confirmed.set(RepliconTick(1));

    assert_eq!(confirmed.get(RepliconTick(0)), false);
    assert_eq!(confirmed.get(RepliconTick(1)), true);
    assert_eq!(confirmed.get(RepliconTick(3)), false);
    assert_eq!(confirmed.get(RepliconTick(u32::MAX)), true);
}

#[test]
fn set_ago_marks_old_tick() {
    let mut confirmed = Confirmed::new(RepliconTick(200));

    confirmed.set_ago(10);

    assert_eq!(confirmed.get(RepliconTick(190)), true);
    assert_eq!(confirmed.get(RepliconTick(191)), false);
}

#[test]
fn set_last_tick_ignores_older() {
    let mut confirmed = Confirmed::new(RepliconTick(10));

    confirmed.set_last_tick(RepliconTick(5));

    assert_eq!(confirmed.last_tick(), RepliconTick(10));
}

#[test]
fn ticks_far_in_the_past_count_confirmed() {
    let confirmed = Confirmed::new(RepliconTick(100));

    assert_eq!(confirmed.get(RepliconTick(36)), true);
    assert_eq!(confirmed.get(RepliconTick(37)), false);
}

#[test]
fn tick_ordering_wraps() {
    assert!(RepliconTick(0).is_newer_than(RepliconTick(u32::MAX)));
    assert!(!RepliconTick(u32::MAX).is_newer_than(RepliconTick(0)));
    assert_eq!(RepliconTick(1).distance_since(RepliconTick(u32::MAX)), 2);
    let mut t = RepliconTick(u32::MAX);
    t.increment();
    assert_eq!(t.get(), 0);
}
