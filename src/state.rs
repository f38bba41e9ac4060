use crate::error::BankError;
use crate::matrix::has_shape;
use vstd::prelude::*;

verus! {

/// The abstract state of the arbiter: free units of each resource, and the
/// claim, allocation and need tables (one row per process, one column per
/// resource).
pub struct BankState {
    pub available: Seq<i32>,
    pub max: Seq<Seq<i32>>,
    pub allocation: Seq<Seq<i32>>,
    pub need: Seq<Seq<i32>>,
}

/// A point of the simulated completion search: the work vector, which
/// processes are finished, and the order in which they finished.
pub struct Sim {
    pub work: Seq<int>,
    pub finished: Seq<bool>,
    pub order: Seq<int>,
}

/// The sum of column `j` over the first `n` rows of `t`.
pub open spec fn col_sum(t: Seq<Seq<i32>>, j: int, n: int) -> int
    decreases n,
{
    if n <= 0 {
        0
    } else {
        col_sum(t, j, n - 1) + t[n - 1][j] as int
    }
}

/// The sum of column `j` over those of the first `n` rows of `t` that `f` marks.
pub open spec fn marked_sum(t: Seq<Seq<i32>>, f: Seq<bool>, j: int, n: int) -> int
    decreases n,
{
    if n <= 0 {
        0
    } else {
        marked_sum(t, f, j, n - 1) + if f[n - 1] {
            t[n - 1][j] as int
        } else {
            0
        }
    }
}

/// The state made of the given free units, claims and allocation, with the
/// need table derived from them.
pub open spec fn from_parts(available: Seq<i32>, max: Seq<Seq<i32>>, allocation: Seq<Seq<i32>>) -> BankState {
    BankState {
        available,
        max,
        allocation,
        need: Seq::new(
            max.len(),
            |i: int| Seq::new(available.len(), |j: int| (max[i][j] - allocation[i][j]) as i32),
        ),
    }
}

/// Over a column of non-negative entries, the sum grows with the number of rows.
pub proof fn lemma_col_sum_monotone(t: Seq<Seq<i32>>, j: int, n: int, m: int)
    requires
        0 <= n <= m,
        forall|k: int| 0 <= k < m ==> 0 <= #[trigger] t[k][j],
    ensures
        col_sum(t, j, n) <= col_sum(t, j, m),
    decreases m - n,
{
    if n < m {
        lemma_col_sum_monotone(t, j, n, m - 1);
    }
}

impl BankState {
    /// Number of processes.
    pub open spec fn procs(self) -> int {
        self.max.len() as int
    }

    /// Number of resource types.
    pub open spec fn res(self) -> int {
        self.available.len() as int
    }

    /// Units of resource `j` in the system, free or held.
    pub open spec fn total(self, j: int) -> int {
        self.available[j] + col_sum(self.allocation, j, self.procs())
    }

    /// The invariants of the arbiter's state.
    pub open spec fn valid(self) -> bool {
        &&& has_shape(self.max, self.procs(), self.res())
        &&& has_shape(self.allocation, self.procs(), self.res())
        &&& has_shape(self.need, self.procs(), self.res())
        &&& forall|i: int, j: int|
            0 <= i < self.procs() && 0 <= j < self.res() ==> #[trigger] self.need[i][j]
                == self.max[i][j] - self.allocation[i][j]
        &&& forall|i: int, j: int|
            0 <= i < self.procs() && 0 <= j < self.res() ==> 0 <= #[trigger] self.allocation[i][j]
                <= self.max[i][j]
        &&& forall|j: int| 0 <= j < self.res() ==> 0 <= #[trigger] self.available[j]
        &&& forall|j: int| 0 <= j < self.res() ==> #[trigger] self.total(j) <= i32::MAX
    }

    /// Process `i`'s remaining need fits in `work`.
    pub open spec fn fits(self, i: int, work: Seq<int>) -> bool {
        forall|j: int| 0 <= j < self.res() ==> #[trigger] self.need[i][j] <= work[j]
    }

    /// `work` after process `i` has given back what it holds.
    pub open spec fn release(self, i: int, work: Seq<int>) -> Seq<int> {
        Seq::new(work.len(), |j: int| work[j] + self.allocation[i][j])
    }

    /// The search examines process `i`: an unfinished process whose need fits
    /// completes at once.
    pub open spec fn step(self, t: Sim, i: int) -> Sim {
        if !t.finished[i] && self.fits(i, t.work) {
            Sim {
                work: self.release(i, t.work),
                finished: t.finished.update(i, true),
                order: t.order.push(i),
            }
        } else {
            t
        }
    }

    /// The search after examining processes `0..n` in turn, starting from `s`.
    pub open spec fn scan(self, s: Sim, n: nat) -> Sim
        decreases n,
    {
        if n == 0 {
            s
        } else {
            self.step(self.scan(s, (n - 1) as nat), n - 1)
        }
    }

    /// One pass: every process examined once, in ascending order.
    pub open spec fn pass(self, s: Sim) -> Sim {
        self.scan(s, self.procs() as nat)
    }

    /// Up to `k` passes from `s`, stopping after a pass that finishes nobody.
    pub open spec fn run(self, s: Sim, k: nat) -> Sim
        decreases k,
    {
        if k == 0 {
            s
        } else {
            let t = self.pass(s);
            if t.order.len() == s.order.len() {
                t
            } else {
                self.run(t, (k - 1) as nat)
            }
        }
    }

    /// The search before any process is examined.
    pub open spec fn start(self) -> Sim {
        Sim {
            work: Seq::new(self.res() as nat, |j: int| self.available[j] as int),
            finished: Seq::new(self.procs() as nat, |i: int| false),
            order: Seq::empty(),
        }
    }

    /// Where the safety check ends: at most one pass per process.
    pub open spec fn outcome(self) -> Sim {
        self.run(self.start(), self.procs() as nat)
    }

    /// The state is safe: the search finishes every process.
    pub open spec fn is_safe(self) -> bool {
        forall|i: int| 0 <= i < self.procs() ==> #[trigger] self.outcome().finished[i]
    }

    /// The completion order that the search found.
    pub open spec fn safe_sequence(self) -> Seq<int> {
        self.outcome().order
    }

    /// The work vector after the processes of `order` have completed in turn.
    pub open spec fn replay_work(self, order: Seq<int>) -> Seq<int>
        decreases order.len(),
    {
        if order.len() == 0 {
            Seq::new(self.res() as nat, |j: int| self.available[j] as int)
        } else {
            self.release(order.last(), self.replay_work(order.drop_last()))
        }
    }

    /// Completing the processes of `order` in turn, each one's need fits the
    /// work vector at the moment it completes.
    pub open spec fn replay_ok(self, order: Seq<int>) -> bool
        decreases order.len(),
    {
        if order.len() == 0 {
            true
        } else {
            self.replay_ok(order.drop_last()) && self.fits(
                order.last(),
                self.replay_work(order.drop_last()),
            )
        }
    }

    /// `order` lists each of the processes exactly once.
    pub open spec fn is_permutation(self, order: Seq<int>) -> bool {
        &&& order.len() == self.procs()
        &&& order.no_duplicates()
        &&& forall|k: int| 0 <= k < order.len() ==> 0 <= #[trigger] order[k] < self.procs()
        &&& forall|i: int| 0 <= i < self.procs() ==> #[trigger] order.contains(i)
    }

    /// What holds at every point of the search.
    pub open spec fn sim_inv(self, t: Sim) -> bool {
        &&& t.work.len() == self.res()
        &&& t.finished.len() == self.procs()
        &&& t.order.no_duplicates()
        &&& forall|k: int| 0 <= k < t.order.len() ==> 0 <= #[trigger] t.order[k] < self.procs()
        &&& forall|i: int| 0 <= i < self.procs() ==> (#[trigger] t.finished[i] <==> t.order.contains(i))
        &&& t.work == self.replay_work(t.order)
        &&& self.replay_ok(t.order)
        &&& forall|j: int| 0 <= j < self.res() ==> #[trigger] t.work[j] == self.available[j]
            + marked_sum(self.allocation, t.finished, j, self.procs())
    }

    /// The request is well formed and within both the process's need and
    /// the free units.
    pub open spec fn admits(self, p: int, req: Seq<i32>) -> bool {
        &&& 0 <= p < self.procs()
        &&& req.len() == self.res()
        &&& forall|j: int| 0 <= j < self.res() ==> 0 <= #[trigger] req[j]
        &&& forall|j: int| 0 <= j < self.res() ==> #[trigger] req[j] <= self.need[p][j]
        &&& forall|j: int| 0 <= j < self.res() ==> #[trigger] req[j] <= self.available[j]
    }

    /// The state with `req` moved from the free units to process `p`.
    pub open spec fn granted(self, p: int, req: Seq<i32>) -> BankState {
        BankState {
            available: Seq::new(self.res() as nat, |j: int| (self.available[j] - req[j]) as i32),
            max: self.max,
            allocation: self.allocation.update(
                p,
                Seq::new(self.res() as nat, |j: int| (self.allocation[p][j] + req[j]) as i32),
            ),
            need: self.need.update(
                p,
                Seq::new(self.res() as nat, |j: int| (self.need[p][j] - req[j]) as i32),
            ),
        }
    }

    /// How the arbiter answers process `p`'s request `req`; the checks come
    /// in this order.
    pub open spec fn decide(self, p: int, req: Seq<i32>) -> Result<(), BankError> {
        if !(0 <= p < self.procs()) {
            Err(BankError::IndexOutOfRange)
        } else if req.len() != self.res() {
            Err(BankError::DimensionMismatch)
        } else if exists|j: int| 0 <= j < self.res() && #[trigger] req[j] < 0 {
            Err(BankError::InvalidQuantity)
        } else if exists|j: int| 0 <= j < self.res() && #[trigger] req[j] > self.need[p][j] {
            Err(BankError::ClaimExceeded)
        } else if exists|j: int| 0 <= j < self.res() && #[trigger] req[j] > self.available[j] {
            Err(BankError::InsufficientResources)
        } else if !self.granted(p, req).is_safe() {
            Err(BankError::UnsafeAllocation)
        } else {
            Ok(())
        }
    }
}

/// Marks that agree on the first `n` rows give the same marked sum.
pub proof fn lemma_marked_agree(t: Seq<Seq<i32>>, f: Seq<bool>, g: Seq<bool>, j: int, n: int)
    requires
        forall|k: int| 0 <= k < n ==> #[trigger] f[k] == g[k],
    ensures
        marked_sum(t, f, j, n) == marked_sum(t, g, j, n),
    decreases n,
{
    if n > 0 {
        lemma_marked_agree(t, f, g, j, n - 1);
    }
}

/// Marking row `i` adds its entry to the marked sum.
pub proof fn lemma_marked_update(t: Seq<Seq<i32>>, f: Seq<bool>, i: int, j: int, n: int)
    requires
        0 <= i < n <= f.len(),
        !f[i],
    ensures
        marked_sum(t, f.update(i, true), j, n) == marked_sum(t, f, j, n) + t[i][j],
    decreases n,
{
    let g = f.update(i, true);
    if n - 1 == i {
        lemma_marked_agree(t, f, g, j, n - 1);
    } else {
        lemma_marked_update(t, f, i, j, n - 1);
    }
}

/// With no row marked, the marked sum is zero.
pub proof fn lemma_marked_none(t: Seq<Seq<i32>>, f: Seq<bool>, j: int, n: int)
    requires
        forall|k: int| 0 <= k < n ==> !#[trigger] f[k],
    ensures
        marked_sum(t, f, j, n) == 0,
    decreases n,
{
    if n > 0 {
        lemma_marked_none(t, f, j, n - 1);
    }
}

/// Over a column of non-negative entries, a marked sum lies between zero and
/// the column's sum.
pub proof fn lemma_marked_bounds(t: Seq<Seq<i32>>, f: Seq<bool>, j: int, n: int)
    requires
        forall|k: int| 0 <= k < n ==> 0 <= #[trigger] t[k][j],
    ensures
        0 <= marked_sum(t, f, j, n) <= col_sum(t, j, n),
    decreases n,
{
    if n > 0 {
        lemma_marked_bounds(t, f, j, n - 1);
    }
}

/// Replacing row `p` changes a column sum by the change in that row's entry.
pub proof fn lemma_col_sum_update(t: Seq<Seq<i32>>, p: int, row: Seq<i32>, j: int, n: int)
    requires
        0 <= p < n <= t.len(),
    ensures
        col_sum(t.update(p, row), j, n) == col_sum(t, j, n) - t[p][j] + row[j],
    decreases n,
{
    let u = t.update(p, row);
    if n - 1 == p {
        lemma_col_sum_agree(t, u, j, n - 1);
    } else {
        lemma_col_sum_update(t, p, row, j, n - 1);
    }
}

/// Tables that agree on column `j` of their first `n` rows have the same
/// column sum there.
pub proof fn lemma_col_sum_agree(t: Seq<Seq<i32>>, u: Seq<Seq<i32>>, j: int, n: int)
    requires
        forall|k: int| 0 <= k < n ==> #[trigger] t[k][j] == u[k][j],
    ensures
        col_sum(t, j, n) == col_sum(u, j, n),
    decreases n,
{
    if n > 0 {
        lemma_col_sum_agree(t, u, j, n - 1);
    }
}

impl BankState {
    /// The search starts in a point that meets its invariant.
    pub proof fn lemma_start_inv(self)
        requires
            self.valid(),
        ensures
            self.sim_inv(self.start()),
    {
        let s = self.start();
        assert forall|j: int| 0 <= j < self.res() implies #[trigger] s.work[j] == self.available[j]
            + marked_sum(self.allocation, s.finished, j, self.procs()) by {
            lemma_marked_none(self.allocation, s.finished, j, self.procs());
        }
        assert(s.work =~= self.replay_work(s.order));
    }

    /// Every entry of the work vector lies in the `i32` range; and where
    /// process `i` is unfinished, so does each entry after it releases.
    pub proof fn lemma_work_bounded(self, t: Sim, i: int)
        requires
            self.valid(),
            self.sim_inv(t),
        ensures
            forall|j: int| 0 <= j < self.res() ==> 0 <= #[trigger] t.work[j] <= i32::MAX,
            0 <= i < self.procs() && !t.finished[i] ==> forall|j: int|
                0 <= j < self.res() ==> 0 <= #[trigger] t.work[j] + self.allocation[i][j] <= i32::MAX,
    {
        assert forall|j: int| 0 <= j < self.res() implies 0 <= #[trigger] t.work[j] <= i32::MAX by {
            lemma_marked_bounds(self.allocation, t.finished, j, self.procs());
            assert(self.total(j) <= i32::MAX);
        }
        if 0 <= i < self.procs() && !t.finished[i] {
            assert forall|j: int| 0 <= j < self.res() implies 0 <= #[trigger] t.work[j]
                + self.allocation[i][j] <= i32::MAX by {
                let g = t.finished.update(i, true);
                lemma_marked_update(self.allocation, t.finished, i, j, self.procs());
                lemma_marked_bounds(self.allocation, g, j, self.procs());
                assert(self.total(j) <= i32::MAX);
            }
        }
    }

    /// One step of the search keeps its invariant, and only ever appends to
    /// the order.
    pub proof fn lemma_step_inv(self, t: Sim, i: int)
        requires
            self.valid(),
            self.sim_inv(t),
            0 <= i < self.procs(),
        ensures
            self.sim_inv(self.step(t, i)),
            self.step(t, i).order.len() >= t.order.len(),
    {
        if !t.finished[i] && self.fits(i, t.work) {
            let u = self.step(t, i);
            assert(!t.order.contains(i));
            assert(u.order.drop_last() =~= t.order);
            assert forall|a: int, b: int|
                0 <= a < u.order.len() && 0 <= b < u.order.len() && a != b implies u.order[a]
                != u.order[b] by {
                if a < t.order.len() && b < t.order.len() {
                } else if a == t.order.len() {
                    assert(t.order.contains(u.order[b]) ==> u.order[b] != i);
                    assert(u.order[b] == t.order[b]);
                } else {
                    assert(u.order[a] == t.order[a]);
                }
            }
            assert forall|k: int| 0 <= k < self.procs() implies (#[trigger] u.finished[k]
                <==> u.order.contains(k)) by {
                if k == i {
                    assert(u.order[t.order.len() as int] == i);
                } else {
                    if t.order.contains(k) {
                        let x = choose|x: int| 0 <= x < t.order.len() && t.order[x] == k;
                        assert(u.order[x] == k);
                    }
                    if u.order.contains(k) {
                        let x = choose|x: int| 0 <= x < u.order.len() && u.order[x] == k;
                        assert(t.order[x] == k);
                    }
                }
            }
            assert forall|j: int| 0 <= j < self.res() implies #[trigger] u.work[j]
                == self.available[j] + marked_sum(self.allocation, u.finished, j, self.procs()) by {
                lemma_marked_update(self.allocation, t.finished, i, j, self.procs());
            }
        }
    }

    /// The search keeps its invariant through the first `n` examinations of
    /// a pass.
    pub proof fn lemma_scan_inv(self, s: Sim, n: nat)
        requires
            self.valid(),
            self.sim_inv(s),
            n <= self.procs(),
        ensures
            self.sim_inv(self.scan(s, n)),
            self.scan(s, n).order.len() >= s.order.len(),
        decreases n,
    {
        if n > 0 {
            self.lemma_scan_inv(s, (n - 1) as nat);
            self.lemma_step_inv(self.scan(s, (n - 1) as nat), n - 1);
        }
    }

    /// The search keeps its invariant through any number of passes.
    pub proof fn lemma_run_inv(self, s: Sim, k: nat)
        requires
            self.valid(),
            self.sim_inv(s),
        ensures
            self.sim_inv(self.run(s, k)),
        decreases k,
    {
        if k > 0 {
            self.lemma_scan_inv(s, self.procs() as nat);
            let t = self.pass(s);
            if t.order.len() != s.order.len() {
                self.lemma_run_inv(t, (k - 1) as nat);
            }
        }
    }

    /// Whenever the safety check reports a safe state, its sequence lists each
    /// process exactly once, and completing the processes in that order, each
    /// with its recorded allocation, meets every process's need at the moment
    /// it completes.
    pub proof fn lemma_safe_sequence_valid(self)
        requires
            self.valid(),
        ensures
            self.is_safe() ==> self.is_permutation(self.safe_sequence()),
            self.is_safe() ==> self.replay_ok(self.safe_sequence()),
    {
        self.lemma_start_inv();
        self.lemma_run_inv(self.start(), self.procs() as nat);
        let o = self.safe_sequence();
        if self.is_safe() {
            assert forall|i: int| 0 <= i < self.procs() implies #[trigger] o.contains(i) by {
                assert(self.outcome().finished[i]);
            }
            assert(o.to_set() =~= vstd::set_lib::set_int_range(0, self.procs())) by {
                assert forall|x: int| o.to_set().contains(x) implies 0 <= x < self.procs() by {
                    let k = choose|k: int| 0 <= k < o.len() && o[k] == x;
                    assert(0 <= o[k] < self.procs());
                }
            }
            vstd::set_lib::lemma_int_range(0, self.procs());
            o.unique_seq_to_set();
        }
    }

    /// A granted request leaves every resource's total unchanged: units move
    /// from the free pool to the process and are neither made nor lost.
    pub proof fn lemma_grant_conserves(self, p: int, req: Seq<i32>)
        requires
            self.valid(),
            self.admits(p, req),
        ensures
            forall|j: int| 0 <= j < self.res() ==> #[trigger] self.granted(p, req).total(j) == self.total(j),
    {
        let g = self.granted(p, req);
        assert forall|j: int| 0 <= j < self.res() implies #[trigger] g.total(j) == self.total(j) by {
            let row = Seq::new(self.res() as nat, |k: int| (self.allocation[p][k] + req[k]) as i32);
            lemma_col_sum_update(self.allocation, p, row, j, self.procs());
        }
    }

    /// A request that the state admits leads to a state that meets the
    /// invariants.
    pub proof fn lemma_grant_valid(self, p: int, req: Seq<i32>)
        requires
            self.valid(),
            self.admits(p, req),
        ensures
            self.granted(p, req).valid(),
    {
        let g = self.granted(p, req);
        self.lemma_grant_conserves(p, req);
        assert forall|j: int| 0 <= j < g.res() implies #[trigger] g.total(j) <= i32::MAX by {
            assert(self.total(j) <= i32::MAX);
        }
        assert forall|i: int| 0 <= i < g.procs() implies (#[trigger] g.allocation[i]).len() == g.res() by {}
        assert forall|i: int| 0 <= i < g.procs() implies (#[trigger] g.need[i]).len() == g.res() by {}
        assert forall|i: int| 0 <= i < g.procs() implies (#[trigger] g.max[i]).len() == g.res() by {}
    }
}

} // verus!
