use bis2::error::StrError;
use bis2::latch::Latch;
use bis2::ringvec::RingVec;

#[test]
fn ringvec_is_a_bounded_stack() {
    let mut r: RingVec<u32> = RingVec::new(3);
    assert_eq!(r.pop(), None);
    r.push(1);
    r.push(2);
    r.push(3);
    r.push(4);
    // the oldest element fell off the bottom
    assert_eq!(r.pop(), Some(4));
    assert_eq!(r.pop(), Some(3));
    assert_eq!(r.pop(), Some(2));
    assert_eq!(r.pop(), None);
}

#[test]
fn ringvec_of_zero_capacity_stays_empty() {
    let mut r: RingVec<u32> = RingVec::new(0);
    r.push(7);
    assert_eq!(r.pop(), None);
}

#[test]
fn latch_counts_down_to_zero() {
    let mut l = Latch::new(3);
    assert_eq!(l.poll(0), 3);
    l.count_down(0);
    assert_eq!(l.poll(0), 2);
    l.process_queue(5);
    assert_eq!(l.poll(0), 0);
    // counting below zero stays at zero
    l.count_down(0);
    assert_eq!(l.poll(0), 0);
}

#[test]
fn latch_wait_steps() {
    let mut l = Latch::new(2);
    assert!(!l.wait_step());
    assert!(l.wait_step());
}

#[test]
fn str_error_carries_description_and_cause() {
    let e = StrError::new("no tty".to_string(), None);
    assert_eq!(e.description(), "no tty");
    assert!(e.cause().is_none());
    assert_eq!(e.message(), "no tty");

    let e2 = StrError::new("setup failed".to_string(), Some("no tty".to_string()));
    assert_eq!(e2.cause().unwrap(), "no tty");
    assert_eq!(e2.message(), "setup failed: no tty");
}
