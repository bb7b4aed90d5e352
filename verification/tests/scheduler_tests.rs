use gdfm::Scheduler;

#[test]
fn launches_stop_at_the_ceiling() {
    let mut sched = Scheduler::new(10, 3);
    assert_eq!(sched.launch(), Some(1));
    assert_eq!(sched.launch(), Some(2));
    assert_eq!(sched.launch(), Some(3));
    assert_eq!(sched.launch(), None);
    sched.complete();
    assert_eq!(sched.launch(), Some(4));
    assert_eq!(sched.launch(), None);
}

#[test]
fn in_flight_never_exceeds_the_ceiling() {
    // An instrumented run: count concurrent entries while draining a
    // ten-page job under a ceiling of three, completing one fetch after
    // every two launches.
    let mut sched = Scheduler::new(10, 3);
    let mut in_flight: u32 = 0;
    let mut launched: u32 = 0;
    let mut completed: u32 = 0;
    while completed < 10 {
        let mut progressed = false;
        for _ in 0..2 {
            if let Some(p) = sched.launch() {
                launched += 1;
                in_flight += 1;
                assert!(in_flight <= 3, "ceiling exceeded");
                assert_eq!(p, launched);
                progressed = true;
            }
        }
        if in_flight > 0 {
            sched.complete();
            in_flight -= 1;
            completed += 1;
            progressed = true;
        }
        assert!(progressed);
    }
    assert_eq!(launched, 10);
    assert!(sched.done());
}

#[test]
fn done_only_after_every_page_completed() {
    let mut sched = Scheduler::new(2, 5);
    assert!(!sched.done());
    assert_eq!(sched.launch(), Some(1));
    assert_eq!(sched.launch(), Some(2));
    assert_eq!(sched.launch(), None);
    assert!(!sched.done());
    sched.complete();
    assert!(!sched.done());
    sched.complete();
    assert!(sched.done());
}

#[test]
fn zero_pages_job_is_done_immediately() {
    let mut sched = Scheduler::new(0, 5);
    assert!(sched.done());
    assert_eq!(sched.launch(), None);
}
