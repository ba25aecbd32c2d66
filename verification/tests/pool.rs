use hpvcd::disjoint::{BorrowTable, Grant, Span};
use hpvcd::plane::Plane;
use hpvcd::sample::{filled, try_vec};
use hpvcd::schedule::Scheduler;
use hpvcd::DecodeError;

fn span(start: usize, end: usize) -> Span {
    Span { start, end }
}

#[test]
fn ranges_in_use_never_overlap() {
    let mut t = BorrowTable::new(8);
    assert_eq!(t.request(span(0, 5)), Grant::Granted);
    assert_eq!(t.request(span(3, 8)), Grant::Conflict(span(0, 5)));
    assert_eq!(t.request(span(5, 8)), Grant::Granted);
    assert_eq!(t.request(span(5, 9)), Grant::OutOfBounds);
    assert_eq!(t.request(span(4, 3)), Grant::OutOfBounds);
    assert_eq!(t.request(span(2, 2)), Grant::Conflict(span(0, 5)));
    t.release(span(0, 5));
    assert_eq!(t.request(span(1, 4)), Grant::Granted);
    t.release(span(7, 8));
    assert_eq!(t.live.len(), 2);
}

#[test]
fn jobs_come_from_the_own_queue_then_from_others() {
    let mut s = Scheduler::new(2);
    assert_eq!(s.threads(), 2);
    for job in 0..4 {
        s.submit(job);
    }
    s.inject(9);
    assert_eq!(s.find_job(0), Some(2));
    assert_eq!(s.find_job(0), Some(0));
    assert_eq!(s.find_job(0), Some(1));
    assert_eq!(s.find_job(5), Some(3));
    assert_eq!(s.find_job(1), Some(9));
    assert_eq!(s.find_job(1), None);
}

#[test]
fn no_workers_count_as_one() {
    let mut s = Scheduler::new(0);
    assert_eq!(s.threads(), 1);
    s.submit(7);
    assert_eq!(s.find_job(1), Some(7));
    assert_eq!(s.find_job(0), None);
}

#[test]
fn plane_hands_its_buffer_out() {
    let mut p: Plane<u16> = Plane::owned(vec![1, 2, 3]);
    p.set(1, 9);
    assert_eq!(p.to_vec_clone(), vec![1, 9, 3]);
    assert_eq!(p.as_slice(), &[1, 9, 3]);
    assert_eq!(p.take_vec(), vec![1, 9, 3]);
    assert_eq!(p.len(), 0);
    assert_eq!(Plane::<u8>::default().len(), 0);
}

#[test]
fn buffers_report_missing_memory() {
    assert_eq!(try_vec(7u16, 3, "plane").unwrap(), vec![7, 7, 7]);
    let half = usize::MAX / 2 + 1;
    assert!(matches!(
        try_vec(0u8, half, "plane"),
        Err(DecodeError::AllocationFailed { what: "plane", bytes }) if bytes == half
    ));
    assert!(matches!(
        try_vec(0u16, half, "plane"),
        Err(DecodeError::AllocationFailed { bytes: usize::MAX, .. })
    ));
    assert!(matches!(
        filled(false, Vec::new(), 1u16, 5, "row"),
        Err(DecodeError::AllocationFailed { what: "row", bytes: 10 })
    ));
    assert_eq!(filled(true, Vec::new(), 1u8, 2, "row").unwrap(), vec![1, 1]);
}
