//! One philosopher's life cycle as a step machine. Each call of `step` says
//! what to do next; whoever drives the machine does it (pauses, takes a fork,
//! sends the event) and then calls `step` again.

use vstd::prelude::*;
use vstd::multiset::Multiset;
use crate::pool::{Fork, ForkPool, ordered_pair};

verus! {

/// Where a philosopher is in its cycle.
#[derive(Clone, Copy, Debug, PartialEq, Eq, Structural)]
pub enum Phase {
    Thinking,
    AcquiringFirst,
    AcquiringSecond,
    Eating,
    Done,
}

/// What the driver of a philosopher does next.
#[derive(Clone, Copy, Debug, PartialEq, Eq, Structural)]
pub enum Action {
    /// Say that it thinks, and pause.
    Think,
    /// Block until this fork is held.
    Take(Fork),
    /// Say that it eats, send its eating event, pause, then put both forks
    /// down, the second one first.
    Eat,
    /// Nothing more to do.
    Finish,
}

/// The state of one philosopher: its seat, its two forks in the order it
/// takes them, the meals still to eat, and its phase.
#[derive(Clone, Copy, Debug, PartialEq, Eq, Structural)]
pub struct Philosopher {
    pub id: usize,
    pub first: Fork,
    pub second: Fork,
    pub remaining: usize,
    pub phase: Phase,
}

/// One step of the machine: the next state and what to do.
pub open spec fn step_spec(s: Philosopher) -> (Philosopher, Action) {
    match s.phase {
        Phase::Thinking => if s.remaining == 0 {
            (Philosopher { phase: Phase::Done, ..s }, Action::Finish)
        } else {
            (Philosopher { phase: Phase::AcquiringFirst, ..s }, Action::Think)
        },
        Phase::AcquiringFirst => (
            Philosopher { phase: Phase::AcquiringSecond, ..s },
            Action::Take(s.first),
        ),
        Phase::AcquiringSecond => (Philosopher { phase: Phase::Eating, ..s }, Action::Take(s.second)),
        Phase::Eating => (
            Philosopher { phase: Phase::Thinking, remaining: (s.remaining - 1) as usize, ..s },
            Action::Eat,
        ),
        Phase::Done => (s, Action::Finish),
    }
}

/// The state after `k` steps.
pub open spec fn state_after(s: Philosopher, k: nat) -> Philosopher
    decreases k,
{
    if k == 0 {
        s
    } else {
        state_after(step_spec(s).0, (k - 1) as nat)
    }
}

/// The action of step number `k` (counting from zero).
pub open spec fn action_at(s: Philosopher, k: nat) -> Action {
    step_spec(state_after(s, k)).1
}

/// The ids tagging the eating events of the first `k` steps.
pub open spec fn events_of(s: Philosopher, k: nat) -> Multiset<nat>
    decreases k,
{
    if k == 0 {
        Multiset::empty()
    } else {
        let rest = events_of(step_spec(s).0, (k - 1) as nat);
        if step_spec(s).1 == Action::Eat {
            rest.insert(s.id as nat)
        } else {
            rest
        }
    }
}

/// The number of steps before the philosopher reports `Finish`.
pub open spec fn steps_left(s: Philosopher) -> nat {
    match s.phase {
        Phase::Thinking => 4 * s.remaining as nat,
        Phase::AcquiringFirst => (4 * s.remaining - 1) as nat,
        Phase::AcquiringSecond => (4 * s.remaining - 2) as nat,
        Phase::Eating => (4 * s.remaining - 3) as nat,
        Phase::Done => 0,
    }
}

/// The meals still to be eaten from this state, counting one under way.
pub open spec fn meals_left(s: Philosopher) -> nat {
    match s.phase {
        Phase::Done => 0,
        _ => s.remaining as nat,
    }
}

/// The forks held in a state: none while thinking or done, the first one
/// while reaching for the second, both while eating.
pub open spec fn held(s: Philosopher) -> Seq<Fork> {
    match s.phase {
        Phase::AcquiringSecond => seq![s.first],
        Phase::Eating => seq![s.first, s.second],
        _ => seq![],
    }
}

/// The state in which seat `id` of `pool` starts, with `count` meals to eat.
pub open spec fn start_state(pool: ForkPool, id: nat, count: nat) -> Philosopher {
    Philosopher {
        id: id as usize,
        first: ordered_pair(pool@, id as int).0,
        second: ordered_pair(pool@, id as int).1,
        remaining: count as usize,
        phase: Phase::Thinking,
    }
}

impl Philosopher {
    /// A philosopher in a phase between taking a fork and eating has a meal
    /// under way.
    pub open spec fn wf(&self) -> bool {
        match self.phase {
            Phase::AcquiringFirst | Phase::AcquiringSecond | Phase::Eating => self.remaining > 0,
            _ => true,
        }
    }

    /// Seat `id` at the start, thinking, with `count` meals to eat and its
    /// forks in the order that the pool gives.
    pub fn new(id: usize, pool: &ForkPool, count: usize) -> (r: Self)
        requires
            pool.wf(),
            id < pool@.len(),
        ensures
            r == start_state(*pool, id as nat, count as nat),
            r.wf(),
    {
        let (first, second) = pool.get_ordered_forks(id);
        Philosopher { id, first, second, remaining: count, phase: Phase::Thinking }
    }

    /// Moves to the next phase and returns what to do in it.
    pub fn step(&mut self) -> (a: Action)
        requires
            old(self).wf(),
        ensures
            (*final(self), a) == step_spec(*old(self)),
            final(self).wf(),
    {
        match self.phase {
            Phase::Thinking => {
                if self.remaining == 0 {
                    self.phase = Phase::Done;
                    Action::Finish
                } else {
                    self.phase = Phase::AcquiringFirst;
                    Action::Think
                }
            },
            Phase::AcquiringFirst => {
                self.phase = Phase::AcquiringSecond;
                Action::Take(self.first)
            },
            Phase::AcquiringSecond => {
                self.phase = Phase::Eating;
                Action::Take(self.second)
            },
            Phase::Eating => {
                self.remaining = self.remaining - 1;
                self.phase = Phase::Thinking;
                Action::Eat
            },
            Phase::Done => Action::Finish,
        }
    }

    /// The seat of this philosopher.
    pub fn id(&self) -> (r: usize)
        ensures
            r == self.id,
    {
        self.id
    }

    /// Whether the philosopher has eaten all its meals and stopped.
    pub fn is_done(&self) -> (r: bool)
        ensures
            r == (self.phase == Phase::Done),
    {
        match self.phase {
            Phase::Done => true,
            _ => false,
        }
    }
}

/// `n` copies of `x`.
pub open spec fn copies(x: nat, n: nat) -> Multiset<nat>
    decreases n,
{
    if n == 0 {
        Multiset::empty()
    } else {
        copies(x, (n - 1) as nat).insert(x)
    }
}

/// Taking a fork adds it to the forks held, and eating ends with none held:
/// a philosopher eats holding both its forks and keeps none from one meal to
/// the next.
pub proof fn lemma_forks_held(s: Philosopher)
    requires
        s.wf(),
    ensures
        step_spec(s).0.phase == Phase::Eating ==> held(step_spec(s).0) == seq![s.first, s.second],
        forall|f: Fork|
            step_spec(s).1 == Action::Take(f) ==> held(step_spec(s).0) == held(s).push(f),
        step_spec(s).1 == Action::Eat ==> held(s).len() == 2 && held(step_spec(s).0).len() == 0,
{
    assert(seq![s.first] == Seq::<Fork>::empty().push(s.first));
    assert(seq![s.first, s.second] == seq![s.first].push(s.second));
}

/// From any well-formed state the machine runs `steps_left` steps without
/// finishing, then reports `Finish`; on the way it sends one eating event,
/// tagged with its own seat, for each meal left.
pub proof fn lemma_run_to_finish(s: Philosopher)
    requires
        s.wf(),
    ensures
        forall|k: nat| k < steps_left(s) ==> #[trigger] action_at(s, k) != Action::Finish,
        action_at(s, steps_left(s)) == Action::Finish,
        events_of(s, steps_left(s)) == copies(s.id as nat, meals_left(s)),
    decreases steps_left(s),
{
    if steps_left(s) > 0 {
        let t = step_spec(s).0;
        lemma_run_to_finish(t);
        assert(steps_left(t) + 1 == steps_left(s));
        assert forall|k: nat| k < steps_left(s) implies #[trigger] action_at(s, k) != Action::Finish by {
            if k > 0 {
                assert(state_after(s, k) == state_after(t, (k - 1) as nat));
                assert(action_at(t, (k - 1) as nat) != Action::Finish);
            }
        }
        assert(state_after(s, steps_left(s)) == state_after(t, steps_left(t)));
    }
}

/// Seat `id` started with `count` meals takes `4 * count` steps, the last
/// of them not `Finish`, then finishes; its eating events are exactly `count`
/// events tagged `id`.
pub proof fn lemma_agent_meals(pool: ForkPool, id: nat, count: nat)
    requires
        pool.wf(),
        id < pool@.len(),
        count <= usize::MAX,
    ensures
        forall|k: nat|
            k < 4 * count ==> #[trigger] action_at(start_state(pool, id, count), k)
                != Action::Finish,
        action_at(start_state(pool, id, count), 4 * count) == Action::Finish,
        events_of(start_state(pool, id, count), 4 * count) == copies(id, count),
{
    let s = start_state(pool, id, count);
    lemma_run_to_finish(s);
}

} // verus!
