use yamaha_rcp_rs::AcquireAction;
use yamaha_rcp_rs::ConnectionPool;

#[test]
fn the_first_acquire_creates_a_connection() {
    let mut p = ConnectionPool::new();
    assert_eq!(p.num_open, 0);
    assert_eq!(p.acquire(1), AcquireAction::Create(0));
    assert_eq!(p.num_open, 1);
}

#[test]
fn the_pool_never_opens_more_than_the_limit() {
    let limit = 3u8;
    let mut p = ConnectionPool::new();
    let mut held = Vec::new();
    for caller in 0..10 {
        match p.acquire(limit) {
            AcquireAction::Create(id) => held.push(id),
            AcquireAction::Reuse(id) => held.push(id),
            AcquireAction::Wait => assert!(caller >= limit as usize),
        }
        assert!(p.num_open <= limit);
    }
    assert_eq!(p.num_open, limit);
    assert_eq!(held, vec![0, 1, 2]);
}

#[test]
fn released_connections_are_reused_most_recent_first() {
    let mut p = ConnectionPool::new();
    assert_eq!(p.acquire(2), AcquireAction::Create(0));
    assert_eq!(p.acquire(2), AcquireAction::Create(1));
    p.release(0);
    p.release(1);
    assert_eq!(p.acquire(2), AcquireAction::Reuse(1));
    assert_eq!(p.acquire(2), AcquireAction::Reuse(0));
}

#[test]
fn a_broken_connection_is_never_handed_out_again() {
    let mut p = ConnectionPool::new();
    assert_eq!(p.acquire(2), AcquireAction::Create(0));
    assert_eq!(p.acquire(2), AcquireAction::Create(1));
    p.release(1);
    // connection 0 fails mid-command: its caller discards it
    p.discard();
    assert_eq!(p.num_open, 1);
    // every later acquire yields another idle connection or a fresh one
    assert_eq!(p.acquire(2), AcquireAction::Reuse(1));
    assert_eq!(p.acquire(2), AcquireAction::Create(2));
}

#[test]
fn a_failed_creation_gives_the_slot_back() {
    let mut p = ConnectionPool::new();
    assert_eq!(p.acquire(1), AcquireAction::Create(0));
    // opening the socket failed
    p.discard();
    assert_eq!(p.num_open, 0);
    assert_eq!(p.acquire(1), AcquireAction::Create(1));
}

#[test]
fn two_callers_at_limit_one_share_one_connection_without_overlap() {
    // two fades on different channels against a single-connection pool:
    // each command checkout excludes the other caller, so their writes
    // cannot overlap, and both run to completion
    let mut p = ConnectionPool::new();
    let mut a_remaining = 5;
    let mut b_remaining = 5;
    let mut a_turn = true;
    while a_remaining > 0 || b_remaining > 0 {
        assert!(p.num_open <= 1);
        let action = p.acquire(1);
        match action {
            AcquireAction::Create(id) | AcquireAction::Reuse(id) => {
                // exactly one caller holds the connection now
                if a_turn && a_remaining > 0 {
                    a_remaining -= 1;
                } else {
                    b_remaining -= 1;
                }
                a_turn = !a_turn;
                p.release(id);
            }
            AcquireAction::Wait => unreachable!("the connection was always released"),
        }
    }
    assert_eq!(p.num_open, 1);
}
