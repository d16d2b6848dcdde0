use dining_philosophers::{eating_line, thinking_line, Action, ForkPool, Phase, Philosopher};
use std::sync::mpsc;

/// Runs the philosopher alone, sending its eating events on `tx`.
fn drive_alone(mut p: Philosopher, tx: mpsc::Sender<String>) {
    loop {
        match p.step() {
            Action::Eat => tx.send(eating_line(p.id())).unwrap(),
            Action::Finish => break,
            _ => {}
        }
    }
}

/// Runs all seats of a table of `seats` in turn on one thread, each taking
/// a fork only when it is free, and returns the eating events in order.
fn drive_table(seats: usize, meals: usize) -> Vec<String> {
    let pool = ForkPool::new(seats);
    let mut phils: Vec<Philosopher> = (0..seats).map(|i| Philosopher::new(i, &pool, meals)).collect();
    let mut waiting: Vec<Option<Action>> = vec![None; seats];
    let mut holder: Vec<Option<usize>> = vec![None; seats];
    let mut events = Vec::new();
    let mut rounds = 0;
    while !phils.iter().all(|p| p.is_done()) {
        rounds += 1;
        assert!(rounds < 100_000, "the table stopped making progress");
        for i in 0..seats {
            if let Some(Action::Take(f)) = waiting[i] {
                if holder[f.id].is_some() {
                    continue;
                }
                holder[f.id] = Some(i);
                waiting[i] = None;
            }
            match phils[i].step() {
                Action::Take(f) => {
                    if holder[f.id].is_none() {
                        holder[f.id] = Some(i);
                    } else {
                        waiting[i] = Some(Action::Take(f));
                    }
                }
                Action::Eat => {
                    assert_eq!(holder[phils[i].first.id], Some(i));
                    assert_eq!(holder[phils[i].second.id], Some(i));
                    events.push(eating_line(i));
                    holder[phils[i].second.id] = None;
                    holder[phils[i].first.id] = None;
                }
                _ => {}
            }
        }
    }
    events
}

fn count_of(events: &[String], id: usize) -> usize {
    let text = format!("Philosopher {} is eating", id);
    events.iter().filter(|e| **e == text).count()
}

#[test]
fn test_single_philosopher_eats() {
    let pool = ForkPool::new(2);
    let (tx, rx) = mpsc::channel();

    const ITERATIONS: usize = 1;
    drive_alone(Philosopher::new(0, &pool, ITERATIONS), tx);

    let messages: Vec<_> = rx.iter().collect();
    assert_eq!(messages.len(), ITERATIONS);
    assert_eq!(messages[0], "Philosopher 0 is eating");
}

#[test]
fn one_meal_is_four_steps_then_finish() {
    let pool = ForkPool::new(5);
    let mut p = Philosopher::new(1, &pool, 1);
    assert_eq!(p.phase, Phase::Thinking);
    assert_eq!(p.step(), Action::Think);
    assert_eq!(p.step(), Action::Take(p.first));
    assert_eq!(p.phase, Phase::AcquiringSecond);
    assert_eq!(p.step(), Action::Take(p.second));
    assert_eq!(p.phase, Phase::Eating);
    assert_eq!(p.step(), Action::Eat);
    assert_eq!(p.remaining, 0);
    assert!(!p.is_done());
    assert_eq!(p.step(), Action::Finish);
    assert!(p.is_done());
    assert_eq!(p.step(), Action::Finish);
}

#[test]
fn odd_seat_takes_right_fork_first() {
    let pool = ForkPool::new(5);
    let p = Philosopher::new(3, &pool, 2);
    assert_eq!(p.first.id, 4);
    assert_eq!(p.second.id, 3);
}

#[test]
fn zero_meals_finishes_at_once() {
    let pool = ForkPool::new(3);
    let mut p = Philosopher::new(2, &pool, 0);
    assert_eq!(p.step(), Action::Finish);
    assert!(p.is_done());
}

#[test]
fn canonical_table_sends_fifteen_events() {
    let events = drive_table(5, 3);
    assert_eq!(events.len(), 15);
    for id in 0..5 {
        assert_eq!(count_of(&events, id), 3);
    }
}

#[test]
fn minimal_ring_sends_four_events() {
    let events = drive_table(2, 2);
    assert_eq!(events.len(), 4);
    assert_eq!(count_of(&events, 0), 2);
    assert_eq!(count_of(&events, 1), 2);
}

#[test]
fn every_event_names_a_seat() {
    let events = drive_table(4, 2);
    for e in &events {
        let id = e
            .strip_prefix("Philosopher ")
            .and_then(|r| r.strip_suffix(" is eating"))
            .and_then(|d| d.parse::<usize>().ok());
        assert!(matches!(id, Some(d) if d < 4), "unexpected event {e}");
    }
}

#[test]
fn narration_lines_hold_the_decimal_id() {
    assert_eq!(eating_line(0), "Philosopher 0 is eating");
    assert_eq!(eating_line(12), "Philosopher 12 is eating");
    assert_eq!(thinking_line(4), "Philosopher 4 is thinking");
    assert_eq!(thinking_line(305), "Philosopher 305 is thinking");
}
