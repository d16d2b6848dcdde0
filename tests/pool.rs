use dining_philosophers::{Fork, ForkPool, PHILOSOPHERS};

#[test]
fn test_fork_pair_consistency() {
    assert!(PHILOSOPHERS >= 2, "Dining requires at least two philosophers");

    let pool = ForkPool::new(PHILOSOPHERS);
    for i in 0..PHILOSOPHERS {
        let (left, right) = pool.get_ordered_forks(i);
        assert!(
            left != right,
            "Left and right forks must not be the same for philosopher {i}"
        );
    }
}

#[test]
fn ordered_forks_follow_seat_parity() {
    let pool = ForkPool::new(5);
    assert_eq!(pool.get_ordered_forks(0), (Fork { id: 0 }, Fork { id: 1 }));
    assert_eq!(pool.get_ordered_forks(1), (Fork { id: 2 }, Fork { id: 1 }));
    assert_eq!(pool.get_ordered_forks(2), (Fork { id: 2 }, Fork { id: 3 }));
    assert_eq!(pool.get_ordered_forks(3), (Fork { id: 4 }, Fork { id: 3 }));
    assert_eq!(pool.get_ordered_forks(4), (Fork { id: 4 }, Fork { id: 0 }));
}

#[test]
fn two_seat_ring_orders_both_forks_the_same_way() {
    let pool = ForkPool::new(2);
    assert_eq!(pool.get_ordered_forks(0), (Fork { id: 0 }, Fork { id: 1 }));
    assert_eq!(pool.get_ordered_forks(1), (Fork { id: 0 }, Fork { id: 1 }));
}

#[test]
fn every_fork_is_shared_by_two_seats() {
    let n: usize = 6;
    let pool = ForkPool::new(n);
    let mut uses = vec![0usize; n];
    for i in 0..n {
        let (a, b) = pool.get_ordered_forks(i);
        assert_ne!(a, b);
        uses[a.id] += 1;
        uses[b.id] += 1;
    }
    assert!(uses.iter().all(|&u| u == 2));
}
