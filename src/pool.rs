//! The ring of forks around the table.

use vstd::multiset::Multiset;
use vstd::prelude::*;

verus! {

/// One fork. Its identity is its place in the ring; forks carry nothing else.
#[derive(Clone, Copy, Debug, PartialEq, Eq, Structural)]
pub struct Fork {
    pub id: usize,
}

/// The forks of a table of `n` seats, indexed `0..n` and read as a ring:
/// fork `n - 1` lies next to fork `0`.
pub struct ForkPool {
    forks: Vec<Fork>,
}

impl View for ForkPool {
    type V = Seq<Fork>;

    closed spec fn view(&self) -> Seq<Fork> {
        self.forks@
    }
}

/// The fork on the left of seat `i`.
pub open spec fn left_of(forks: Seq<Fork>, i: int) -> Fork {
    forks[i]
}

/// The fork on the right of seat `i`: the next one round the ring.
pub open spec fn right_of(forks: Seq<Fork>, i: int) -> Fork {
    forks[(i + 1) % forks.len() as int]
}

/// The two forks of seat `i` in the order in which it takes them: even seats
/// take the left fork first, odd seats the right one.
pub open spec fn ordered_pair(forks: Seq<Fork>, i: int) -> (Fork, Fork) {
    if i % 2 == 0 {
        (left_of(forks, i), right_of(forks, i))
    } else {
        (right_of(forks, i), left_of(forks, i))
    }
}

/// The multiset of the left and right forks of seats `0..k`.
pub open spec fn ring_cover(forks: Seq<Fork>, k: nat) -> Multiset<Fork>
    decreases k,
{
    if k == 0 {
        Multiset::empty()
    } else {
        ring_cover(forks, (k - 1) as nat).insert(left_of(forks, k - 1)).insert(
            right_of(forks, k - 1),
        )
    }
}

impl ForkPool {
    /// Every fork is identified by its own index, so identities are distinct.
    pub open spec fn wf(&self) -> bool {
        forall|i: int| 0 <= i < self@.len() ==> (#[trigger] self@[i]).id == i
    }

    /// A pool of `num_forks` forks, fork `i` at index `i`.
    pub fn new(num_forks: usize) -> (r: Self)
        ensures
            r@.len() == num_forks,
            r.wf(),
    {
        let mut forks: Vec<Fork> = Vec::new();
        let mut i: usize = 0;
        while i < num_forks
            invariant
                i <= num_forks,
                forks@.len() == i,
                forall|j: int| 0 <= j < i ==> (#[trigger] forks@[j]).id == j,
            decreases num_forks - i,
        {
            forks.push(Fork { id: i });
            i = i + 1;
        }
        ForkPool { forks }
    }

    /// The two forks of seat `id` in the order the seat must take them.
    /// On a ring of two or more forks they are two different forks.
    pub fn get_ordered_forks(&self, id: usize) -> (r: (Fork, Fork))
        requires
            self.wf(),
            id < self@.len(),
        ensures
            r == ordered_pair(self@, id as int),
            self@.len() >= 2 ==> r.0 != r.1,
    {
        let (left, right) = self.get_fork_pair(id);
        proof {
            if self@.len() >= 2 {
                lemma_neighbours_differ(self@, id as int);
            }
        }
        if id % 2 == 0 {
            (left, right)
        } else {
            (right, left)
        }
    }

    /// The left and right forks of seat `index`.
    fn get_fork_pair(&self, index: usize) -> (r: (Fork, Fork))
        requires
            index < self@.len(),
        ensures
            r == (left_of(self@, index as int), right_of(self@, index as int)),
    {
        let n = self.forks.len();
        let left_fork = self.forks[index];
        let right_fork = self.forks[(index + 1) % n];
        (left_fork, right_fork)
    }

    /// Every seat of a ring of two or more forks gets two different forks.
    pub proof fn lemma_pair_distinct(&self, i: int)
        requires
            self.wf(),
            self@.len() >= 2,
            0 <= i < self@.len(),
        ensures
            ordered_pair(self@, i).0 != ordered_pair(self@, i).1,
    {
        lemma_neighbours_differ(self@, i);
    }

    /// Even seats take their left fork first and odd seats their right one.
    pub proof fn lemma_ordering_parity(&self, i: int)
        requires
            0 <= i < self@.len(),
        ensures
            i % 2 == 0 ==> ordered_pair(self@, i) == (self@[i], self@[(i + 1) % self@.len() as int]),
            i % 2 == 1 ==> ordered_pair(self@, i) == (self@[(i + 1) % self@.len() as int], self@[i]),
    {
    }

    /// Taken over all seats, the left and right forks cover every fork of a
    /// ring of two or more exactly twice, and nothing else.
    pub proof fn lemma_ring_coverage(&self)
        requires
            self.wf(),
            self@.len() >= 2,
        ensures
            ring_cover(self@, self@.len()).len() == 2 * self@.len(),
            forall|j: int|
                0 <= j < self@.len() ==> #[trigger] ring_cover(self@, self@.len()).count(self@[j])
                    == 2,
            forall|f: Fork| !self@.contains(f) ==> #[trigger] ring_cover(self@, self@.len()).count(f) == 0,
    {
        let n = self@.len();
        assert forall|j: int| 0 <= j < n implies #[trigger] ring_cover(self@, n).count(self@[j])
            == 2 by {
            lemma_cover_count(self@, n, j);
        }
        assert forall|f: Fork| !self@.contains(f) implies #[trigger] ring_cover(self@, n).count(f)
            == 0 by {
            lemma_cover_outside(self@, n, f);
        }
        lemma_cover_len(self@, n);
    }
}

/// On a ring of two or more, seat 1 and the seat after it reach first for the
/// same fork. So not every seat can hold its first fork at once, and the
/// circular wait in which each seat holds one fork and waits for its other
/// cannot form.
pub proof fn lemma_no_circular_wait(pool: &ForkPool)
    requires
        pool.wf(),
        pool@.len() >= 2,
    ensures
        exists|i: int, j: int|
            0 <= i < j < pool@.len() && #[trigger] ordered_pair(pool@, i).0 == #[trigger] ordered_pair(
                pool@,
                j,
            ).0,
{
    let n = pool@.len() as int;
    lemma_next_index(n, 1);
    if n == 2 {
        assert(ordered_pair(pool@, 0).0 == ordered_pair(pool@, 1).0);
    } else {
        assert(ordered_pair(pool@, 1).0 == ordered_pair(pool@, 2).0);
    }
}

/// The seat next to `i` on the other side: the one whose right fork is fork `i`.
spec fn prev_seat(n: int, j: int) -> int {
    if j == 0 {
        n - 1
    } else {
        j - 1
    }
}

proof fn lemma_next_index(n: int, i: int)
    requires
        n >= 1,
        0 <= i < n,
    ensures
        (i + 1) % n == if i + 1 == n { 0 } else { i + 1 },
{
    if i + 1 == n {
        assert((i + 1) % n == 0) by (nonlinear_arith)
            requires
                i + 1 == n,
                n >= 1,
        ;
    } else {
        vstd::arithmetic::div_mod::lemma_small_mod((i + 1) as nat, n as nat);
    }
}

proof fn lemma_neighbours_differ(forks: Seq<Fork>, i: int)
    requires
        forall|k: int| 0 <= k < forks.len() ==> (#[trigger] forks[k]).id == k,
        forks.len() >= 2,
        0 <= i < forks.len(),
    ensures
        left_of(forks, i) != right_of(forks, i),
{
    lemma_next_index(forks.len() as int, i);
    let r = (i + 1) % forks.len() as int;
    assert(forks[i].id == i);
    assert(forks[r].id == r);
}

proof fn lemma_cover_count(forks: Seq<Fork>, k: nat, j: int)
    requires
        forall|x: int| 0 <= x < forks.len() ==> (#[trigger] forks[x]).id == x,
        forks.len() >= 2,
        k <= forks.len(),
        0 <= j < forks.len(),
    ensures
        ring_cover(forks, k).count(forks[j]) == (if j < k { 1int } else { 0int }) + (if prev_seat(
            forks.len() as int,
            j,
        ) < k {
            1int
        } else {
            0int
        }),
    decreases k,
{
    if k > 0 {
        let n = forks.len() as int;
        let s = k - 1;
        lemma_cover_count(forks, (k - 1) as nat, j);
        lemma_next_index(n, s);
        let r = (s + 1) % n;
        assert(forks[s].id == s);
        assert(forks[r].id == r);
        assert(forks[j].id == j);
        assert((forks[s] == forks[j]) == (s == j));
        assert((forks[r] == forks[j]) == (prev_seat(n, j) == s));
    }
}

proof fn lemma_cover_outside(forks: Seq<Fork>, k: nat, f: Fork)
    requires
        forks.len() >= 1,
        k <= forks.len(),
        !forks.contains(f),
    ensures
        ring_cover(forks, k).count(f) == 0,
    decreases k,
{
    if k > 0 {
        let n = forks.len() as int;
        let s = k - 1;
        lemma_cover_outside(forks, (k - 1) as nat, f);
        lemma_next_index(n, s);
        let r = (s + 1) % n;
        assert(forks[s] != f);
        assert(forks[r] != f);
    }
}

proof fn lemma_cover_len(forks: Seq<Fork>, k: nat)
    ensures
        ring_cover(forks, k).len() == 2 * k,
    decreases k,
{
    if k > 0 {
        lemma_cover_len(forks, (k - 1) as nat);
    }
}

} // verus!
