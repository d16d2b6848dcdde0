//! The checks of the harness that runs a whole table: enough seats before any
//! philosopher starts, and every meal accounted for at the end.

use vstd::prelude::*;
use vstd::multiset::Multiset;
use crate::agent::{copies, events_of, start_state};
use crate::pool::ForkPool;

verus! {

/// Seats at the table in the standard configuration.
pub const PHILOSOPHERS: usize = 5;

/// Meals each philosopher eats in the standard configuration.
pub const ITERATIONS: usize = 3;

/// Why a run of the table fails.
#[derive(Clone, Copy, Debug, PartialEq, Eq, Structural)]
pub enum RunError {
    /// Dining takes at least two philosophers.
    TooFewSeats { seats: usize },
    /// The number of eating events collected is not seats times meals.
    EventCountMismatch { collected: usize },
}

/// The eating events of seats `0..k` of `pool`, each seat eating `count`
/// meals from its start, as a multiset of seat ids.
pub open spec fn table_events(pool: ForkPool, count: nat, k: nat) -> Multiset<nat>
    decreases k,
{
    if k == 0 {
        Multiset::empty()
    } else {
        table_events(pool, count, (k - 1) as nat).add(
            events_of(start_state(pool, (k - 1) as nat, count), 4 * count),
        )
    }
}

/// The pool for a table of `seats`, or an error where there are fewer than
/// two.
pub fn prepare_table(seats: usize) -> (r: Result<ForkPool, RunError>)
    ensures
        seats >= 2 ==> r is Ok,
        seats < 2 ==> r == Err::<ForkPool, RunError>(RunError::TooFewSeats { seats }),
        r matches Ok(p) ==> p@.len() == seats && p.wf(),
{
    if seats < 2 {
        Err(RunError::TooFewSeats { seats })
    } else {
        Ok(ForkPool::new(seats))
    }
}

/// Succeeds exactly when `collected` events are one per meal of every seat.
pub fn check_completion(seats: usize, iterations: usize, collected: usize) -> (r: Result<
    (),
    RunError,
>)
    ensures
        r == if collected as int == seats as int * iterations as int {
            Ok::<(), RunError>(())
        } else {
            Err(RunError::EventCountMismatch { collected })
        },
{
    match seats.checked_mul(iterations) {
        Some(expected) => {
            if expected == collected {
                Ok(())
            } else {
                Err(RunError::EventCountMismatch { collected })
            }
        },
        None => Err(RunError::EventCountMismatch { collected }),
    }
}

/// What `n` copies of `x` hold.
proof fn lemma_copies(x: nat, n: nat)
    ensures
        copies(x, n).len() == n,
        forall|y: nat| #[trigger] copies(x, n).count(y) == if y == x { n } else { 0 },
    decreases n,
{
    if n > 0 {
        lemma_copies(x, (n - 1) as nat);
    }
}

proof fn lemma_table_prefix(pool: ForkPool, count: nat, k: nat)
    requires
        pool.wf(),
        k <= pool@.len(),
        count <= usize::MAX,
    ensures
        table_events(pool, count, k).len() == k * count,
        forall|d: nat| #[trigger] table_events(pool, count, k).count(d) == if d < k { count } else { 0 },
    decreases k,
{
    if k > 0 {
        let s = (k - 1) as nat;
        lemma_table_prefix(pool, count, s);
        crate::agent::lemma_agent_meals(pool, s, count);
        lemma_copies(s, count);
        assert(k * count == s * count + count) by (nonlinear_arith)
            requires
                s + 1 == k,
        ;
    }
}

/// A full run of a table where every seat eats `count` meals sends
/// `seats * count` eating events: `count` of them for each seat, and none
/// tagged with anything but a seat.
pub proof fn lemma_table_events(pool: ForkPool, count: nat)
    requires
        pool.wf(),
        count <= usize::MAX,
    ensures
        table_events(pool, count, pool@.len()).len() == pool@.len() * count,
        forall|d: nat|
            d < pool@.len() ==> #[trigger] table_events(pool, count, pool@.len()).count(d) == count,
        forall|d: nat|
            table_events(pool, count, pool@.len()).count(d) > 0 ==> d < pool@.len(),
{
    lemma_table_prefix(pool, count, pool@.len());
}

} // verus!
