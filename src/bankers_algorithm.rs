use crate::error::BankError;
use crate::matrix::Matrix;
use crate::state::{from_parts, lemma_col_sum_monotone, BankState, Sim};
use vstd::prelude::*;

verus! {

/// The arbiter: it owns the free units of each resource and the claim,
/// allocation and need tables, checks whether the state is safe, and grants
/// only those requests that keep it safe.
pub struct BankersAlgorithm {
    available: Vec<i32>,
    max: Matrix,
    allocation: Matrix,
    need: Matrix,
    num_processes: usize,
    num_resources: usize,
}

/// The search point held by the safety check's vectors.
spec fn sim_of(work: Seq<i32>, finish: Seq<bool>, seq: Seq<usize>) -> Sim {
    Sim {
        work: work.map_values(|x: i32| x as int),
        finished: finish,
        order: as_indices(seq),
    }
}

/// Process indices as integers.
pub open spec fn as_indices(v: Seq<usize>) -> Seq<int> {
    v.map_values(|x: usize| x as int)
}

/// The shapes of the parts agree: `max` and `allocation` are well-formed
/// tables of one shape, with one column per entry of `available`.
pub open spec fn shapes_agree(available: Seq<i32>, max: &Matrix, allocation: &Matrix) -> bool {
    &&& max.wf()
    &&& allocation.wf()
    &&& allocation.rows == max.rows
    &&& allocation.cols == max.cols
    &&& available.len() == max.cols
}

impl View for BankersAlgorithm {
    type V = BankState;

    closed spec fn view(&self) -> BankState {
        BankState {
            available: self.available@,
            max: self.max@,
            allocation: self.allocation@,
            need: self.need@,
        }
    }
}

impl BankersAlgorithm {
    /// The fields agree with one another and the state meets its invariants.
    pub closed spec fn wf(&self) -> bool {
        &&& self@.valid()
        &&& self.max.wf()
        &&& self.allocation.wf()
        &&& self.need.wf()
        &&& self.max.rows == self.num_processes
        &&& self.allocation.rows == self.num_processes
        &&& self.need.rows == self.num_processes
        &&& self.max.cols == self.num_resources
        &&& self.allocation.cols == self.num_resources
        &&& self.need.cols == self.num_resources
        &&& self.available@.len() == self.num_resources
    }

    /// An arbiter over the given free units, claims and allocation; the need
    /// table is derived as claim minus allocation. The state is not checked
    /// for safety.
    ///
    /// Fails with `DimensionMismatch` where the shapes disagree, and with
    /// `InvalidQuantity` where a free amount or an allocation is negative, an
    /// allocation exceeds its claim, or a resource's total exceeds `i32::MAX`.
    pub fn new(available: Vec<i32>, max: Matrix, allocation: Matrix) -> (r: Result<BankersAlgorithm, BankError>)
        ensures
            !shapes_agree(available@, &max, &allocation) ==> r == Err::<BankersAlgorithm, BankError>(
                BankError::DimensionMismatch,
            ),
            shapes_agree(available@, &max, &allocation) && !from_parts(available@, max@, allocation@).valid()
                ==> r == Err::<BankersAlgorithm, BankError>(BankError::InvalidQuantity),
            r is Ok <==> shapes_agree(available@, &max, &allocation) && from_parts(
                available@,
                max@,
                allocation@,
            ).valid(),
            r matches Ok(b) ==> b.wf() && b@ == from_parts(available@, max@, allocation@),
    {
        if !max.is_well_formed() || !allocation.is_well_formed() || allocation.rows != max.rows
            || allocation.cols != max.cols || available.len() != max.cols {
            return Err(BankError::DimensionMismatch);
        }
        let num_processes = max.rows;
        let num_resources = max.cols;
        let ghost s = from_parts(available@, max@, allocation@);
        for j in 0..num_resources
            invariant
                shapes_agree(available@, &max, &allocation),
                available@.len() == num_resources,
                forall|k: int| 0 <= k < j ==> 0 <= #[trigger] available@[k],
        {
            if available[j] < 0 {
                return Err(BankError::InvalidQuantity);
            }
        }
        for i in 0..num_processes
            invariant
                shapes_agree(available@, &max, &allocation),
                s == from_parts(available@, max@, allocation@),
                num_processes == max.rows,
                num_resources == max.cols,
                forall|a: int, b: int|
                    0 <= a < i && 0 <= b < num_resources ==> 0 <= #[trigger] allocation@[a][b]
                        <= max@[a][b],
        {
            for j in 0..num_resources
                invariant
                    shapes_agree(available@, &max, &allocation),
                    s == from_parts(available@, max@, allocation@),
                    num_processes == max.rows,
                    num_resources == max.cols,
                    i < num_processes,
                    forall|a: int, b: int|
                        0 <= a < i && 0 <= b < num_resources ==> 0 <= #[trigger] allocation@[a][b]
                            <= max@[a][b],
                    forall|b: int| 0 <= b < j ==> 0 <= #[trigger] allocation@[i as int][b] <= max@[i as int][b],
            {
                let a = allocation.at(i, j);
                if a < 0 || a > max.at(i, j) {
                    return Err(BankError::InvalidQuantity);
                }
            }
        }
        for j in 0..num_resources
            invariant
                shapes_agree(available@, &max, &allocation),
                s == from_parts(available@, max@, allocation@),
                num_processes == max.rows,
                num_resources == max.cols,
                forall|k: int| 0 <= k < num_resources ==> 0 <= #[trigger] available@[k],
                forall|a: int, b: int|
                    0 <= a < num_processes && 0 <= b < num_resources ==> 0 <= #[trigger] allocation@[a][b]
                        <= max@[a][b],
                forall|k: int| 0 <= k < j ==> #[trigger] s.total(k) <= i32::MAX,
        {
            let mut sum: i32 = available[j];
            for i in 0..num_processes
                invariant
                    shapes_agree(available@, &max, &allocation),
                    s == from_parts(available@, max@, allocation@),
                    num_processes == max.rows,
                    num_resources == max.cols,
                    j < num_resources,
                    forall|a: int, b: int|
                        0 <= a < num_processes && 0 <= b < num_resources ==> 0
                            <= #[trigger] allocation@[a][b] <= max@[a][b],
                    0 <= sum,
                    sum == available@[j as int] + crate::state::col_sum(allocation@, j as int, i as int),
            {
                let a = allocation.at(i, j);
                if a > i32::MAX - sum {
                    proof {
                        lemma_col_sum_monotone(allocation@, j as int, i + 1, num_processes as int);
                        assert(s.total(j as int) > i32::MAX);
                    }
                    return Err(BankError::InvalidQuantity);
                }
                sum = sum + a;
            }
        }
        let mut rows: Vec<Vec<i32>> = Vec::new();
        for i in 0..num_processes
            invariant
                shapes_agree(available@, &max, &allocation),
                s == from_parts(available@, max@, allocation@),
                num_processes == max.rows,
                num_resources == max.cols,
                forall|a: int, b: int|
                    0 <= a < num_processes && 0 <= b < num_resources ==> 0 <= #[trigger] allocation@[a][b]
                        <= max@[a][b],
                rows@.len() == i,
                forall|a: int| 0 <= a < i ==> (#[trigger] rows@[a])@ == s.need[a],
        {
            let mut row: Vec<i32> = Vec::new();
            for j in 0..num_resources
                invariant
                    shapes_agree(available@, &max, &allocation),
                    s == from_parts(available@, max@, allocation@),
                    num_processes == max.rows,
                    num_resources == max.cols,
                    i < num_processes,
                    forall|a: int, b: int|
                        0 <= a < num_processes && 0 <= b < num_resources ==> 0
                            <= #[trigger] allocation@[a][b] <= max@[a][b],
                    row@.len() == j,
                    forall|b: int| 0 <= b < j ==> #[trigger] row@[b] == s.need[i as int][b],
            {
                row.push(max.at(i, j) - allocation.at(i, j));
            }
            assert(row@ =~= s.need[i as int]);
            rows.push(row);
        }
        let need = Matrix { data: rows, rows: num_processes, cols: num_resources };
        assert(need@ =~= s.need);
        let b = BankersAlgorithm { available, max, allocation, need, num_processes, num_resources };
        assert(b@ == s);
        Ok(b)
    }

    /// Runs the safety check: repeated passes over the processes in ascending
    /// order, where each unfinished process whose need fits the work vector
    /// completes at once and gives back its allocation, so that later
    /// processes of the same pass see the larger work vector. The search stops
    /// after a pass that completes nobody, or after one pass per process.
    ///
    /// Returns whether every process completed, and the order of completion.
    pub fn is_safe(&self) -> (r: (bool, Vec<usize>))
        requires
            self.wf(),
        ensures
            r.0 == self@.is_safe(),
            as_indices(r.1@) == self@.safe_sequence(),
    {
        let p = self.num_processes;
        let n_res = self.num_resources;
        let mut work: Vec<i32> = Vec::new();
        for j in 0..n_res
            invariant
                self.wf(),
                n_res == self.num_resources,
                work@.len() == j,
                forall|k: int| 0 <= k < j ==> #[trigger] work@[k] == self.available@[k],
        {
            work.push(self.available[j]);
        }
        let mut finish: Vec<bool> = Vec::new();
        for i in 0..p
            invariant
                finish@.len() == i,
                forall|k: int| 0 <= k < i ==> !#[trigger] finish@[k],
        {
            finish.push(false);
        }
        let mut seq: Vec<usize> = Vec::new();
        proof {
            let t = sim_of(work@, finish@, seq@);
            let st = self@.start();
            assert(t.work =~= st.work);
            assert(t.finished =~= st.finished);
            assert(t.order =~= st.order);
            self@.lemma_start_inv();
        }
        let mut passes: usize = 0;
        let mut stalled = false;
        while passes < p && !stalled
            invariant
                self.wf(),
                p == self.num_processes,
                n_res == self.num_resources,
                p == self@.procs(),
                n_res == self@.res(),
                passes <= p,
                work@.len() == n_res,
                finish@.len() == p,
                self@.sim_inv(sim_of(work@, finish@, seq@)),
                stalled ==> sim_of(work@, finish@, seq@) == self@.outcome(),
                !stalled ==> self@.run(sim_of(work@, finish@, seq@), (p - passes) as nat)
                    == self@.outcome(),
            decreases p - passes,
        {
            let ghost before = sim_of(work@, finish@, seq@);
            let mut found = false;
            for i in 0..p
                invariant
                    self.wf(),
                    p == self.num_processes,
                    n_res == self.num_resources,
                    p == self@.procs(),
                    n_res == self@.res(),
                    work@.len() == n_res,
                    finish@.len() == p,
                    self@.sim_inv(before),
                    self@.sim_inv(sim_of(work@, finish@, seq@)),
                    sim_of(work@, finish@, seq@) == self@.scan(before, i as nat),
                    seq@.len() >= before.order.len(),
                    found <==> seq@.len() > before.order.len(),
            {
                let ghost cur = sim_of(work@, finish@, seq@);
                proof {
                    self@.lemma_step_inv(cur, i as int);
                    self@.lemma_work_bounded(cur, i as int);
                }
                if !finish[i] && self.can_allocate(&work, i) {
                    let ghost w0 = work@;
                    proof {
                        assert forall|k: int| 0 <= k < n_res implies 0 <= #[trigger] w0[k]
                            + self@.allocation[i as int][k] <= i32::MAX by {
                            assert(cur.work[k] == w0[k] as int);
                        }
                    }
                    for j in 0..n_res
                        invariant
                            self.wf(),
                            p == self.num_processes,
                            n_res == self.num_resources,
                            n_res == self@.res(),
                            i < p,
                            work@.len() == n_res,
                            w0.len() == n_res,
                            forall|k: int| 0 <= k < n_res ==> 0 <= #[trigger] w0[k] + self@.allocation[i as int][k] <= i32::MAX,
                            forall|k: int| 0 <= k < j ==> #[trigger] work@[k] == w0[k] + self@.allocation[i as int][k],
                            forall|k: int| j <= k < n_res ==> #[trigger] work@[k] == w0[k],
                    {
                        let v = work[j] + self.allocation.at(i, j);
                        work.set(j, v);
                    }
                    finish.set(i, true);
                    seq.push(i);
                    found = true;
                    proof {
                        let next = self@.step(cur, i as int);
                        let t = sim_of(work@, finish@, seq@);
                        assert(t.work =~= next.work);
                        assert(t.finished =~= next.finished);
                        assert(t.order =~= next.order);
                    }
                }
            }
            if !found {
                stalled = true;
            }
            passes = passes + 1;
        }
        let mut all = true;
        for i in 0..p
            invariant
                finish@.len() == p,
                all == forall|k: int| 0 <= k < i ==> #[trigger] finish@[k],
        {
            if !finish[i] {
                all = false;
            }
        }
        (all, seq)
    }

    /// Process `process`'s need fits in `work`.
    fn can_allocate(&self, work: &Vec<i32>, process: usize) -> (r: bool)
        requires
            self.wf(),
            process < self.num_processes,
            work@.len() == self.num_resources,
        ensures
            r == self@.fits(process as int, work@.map_values(|x: i32| x as int)),
    {
        for j in 0..self.num_resources
            invariant
                self.wf(),
                process < self.num_processes,
                work@.len() == self.num_resources,
                forall|k: int| 0 <= k < j ==> #[trigger] self@.need[process as int][k] <= work@[k],
        {
            if self.need.at(process, j) > work[j] {
                return false;
            }
        }
        true
    }

    /// Handles process `process`'s request: it is refused with
    /// `IndexOutOfRange` for an unknown process, `DimensionMismatch` for a
    /// vector of the wrong length, `InvalidQuantity` for a negative amount,
    /// `ClaimExceeded` where it exceeds the process's need, and
    /// `InsufficientResources` where it exceeds the free units. Otherwise it
    /// is applied tentatively and the safety check is run: a safe result
    /// keeps it, an unsafe one undoes it exactly and gives `UnsafeAllocation`.
    pub fn try_request(&mut self, process: usize, request: &Vec<i32>) -> (r: Result<(), BankError>)
        requires
            old(self).wf(),
        ensures
            final(self).wf(),
            final(self)@.valid(),
            r == old(self)@.decide(process as int, request@),
            r is Ok ==> final(self)@ == old(self)@.granted(process as int, request@),
            r is Err ==> final(self)@ == old(self)@,
    {
        if process >= self.num_processes {
            return Err(BankError::IndexOutOfRange);
        }
        if request.len() != self.num_resources {
            return Err(BankError::DimensionMismatch);
        }
        if !all_non_negative(request) {
            return Err(BankError::InvalidQuantity);
        }
        if !self.is_request_valid(process, request) {
            return Err(BankError::ClaimExceeded);
        }
        if !self.has_sufficient_resources(request) {
            return Err(BankError::InsufficientResources);
        }
        let ghost prior = self@;
        self.try_allocation(process, request);
        let (safe, _) = self.is_safe();
        if safe {
            Ok(())
        } else {
            self.rollback_allocation(process, request, Ghost(prior));
            Err(BankError::UnsafeAllocation)
        }
    }

    /// Handles a request as `try_request` does, and tells only whether it was
    /// granted.
    pub fn request_resources(&mut self, process: usize, request: &Vec<i32>) -> (r: bool)
        requires
            old(self).wf(),
        ensures
            final(self).wf(),
            final(self)@.valid(),
            r == old(self)@.decide(process as int, request@) is Ok,
            r ==> final(self)@ == old(self)@.granted(process as int, request@),
            !r ==> final(self)@ == old(self)@,
    {
        self.try_request(process, request).is_ok()
    }

    /// The request stays within the process's remaining need.
    fn is_request_valid(&self, process: usize, request: &Vec<i32>) -> (r: bool)
        requires
            self.wf(),
            process < self.num_processes,
            request@.len() == self.num_resources,
        ensures
            r == forall|j: int| 0 <= j < self@.res() ==> #[trigger] request@[j] <= self@.need[process as int][j],
    {
        for j in 0..self.num_resources
            invariant
                self.wf(),
                process < self.num_processes,
                request@.len() == self.num_resources,
                forall|k: int| 0 <= k < j ==> #[trigger] request@[k] <= self@.need[process as int][k],
        {
            if request[j] > self.need.at(process, j) {
                return false;
            }
        }
        true
    }

    /// The request stays within the free units.
    fn has_sufficient_resources(&self, request: &Vec<i32>) -> (r: bool)
        requires
            self.wf(),
            request@.len() == self.num_resources,
        ensures
            r == forall|j: int| 0 <= j < self@.res() ==> #[trigger] request@[j] <= self@.available[j],
    {
        for j in 0..self.num_resources
            invariant
                self.wf(),
                request@.len() == self.num_resources,
                forall|k: int| 0 <= k < j ==> #[trigger] request@[k] <= self@.available[k],
        {
            if request[j] > self.available[j] {
                return false;
            }
        }
        true
    }

    /// Moves the request from the free units to the process, adjusting its
    /// need to match.
    fn try_allocation(&mut self, process: usize, request: &Vec<i32>)
        requires
            old(self).wf(),
            old(self)@.admits(process as int, request@),
        ensures
            final(self).wf(),
            final(self)@ == old(self)@.granted(process as int, request@),
            final(self).num_processes == old(self).num_processes,
            final(self).num_resources == old(self).num_resources,
    {
        let ghost s = self@;
        let ghost p = process as int;
        proof {
            s.lemma_grant_valid(p, request@);
        }
        let n_res = self.num_resources;
        for j in 0..n_res
            invariant
                n_res == self.num_resources,
                self.max.wf(),
                self.allocation.wf(),
                self.need.wf(),
                self.max.rows == self.num_processes,
                self.allocation.rows == self.num_processes,
                self.need.rows == self.num_processes,
                self.max.cols == self.num_resources,
                self.allocation.cols == self.num_resources,
                self.need.cols == self.num_resources,
                self.available@.len() == self.num_resources,
                s.valid(),
                s.admits(p, request@),
                s.res() == self.num_resources,
                s.procs() == self.num_processes,
                process < self.num_processes,
                p == process as int,
                self.max@ == s.max,
                forall|k: int| 0 <= k < j ==> #[trigger] self.available@[k] == s.available[k] - request@[k],
                forall|k: int| j <= k < s.res() ==> #[trigger] self.available@[k] == s.available[k],
                forall|i: int| 0 <= i < s.procs() && i != p ==> #[trigger] self.allocation@[i] == s.allocation[i],
                forall|i: int| 0 <= i < s.procs() && i != p ==> #[trigger] self.need@[i] == s.need[i],
                forall|k: int| 0 <= k < j ==> #[trigger] self.allocation@[p][k] == s.allocation[p][k] + request@[k],
                forall|k: int| j <= k < s.res() ==> #[trigger] self.allocation@[p][k] == s.allocation[p][k],
                forall|k: int| 0 <= k < j ==> #[trigger] self.need@[p][k] == s.need[p][k] - request@[k],
                forall|k: int| j <= k < s.res() ==> #[trigger] self.need@[p][k] == s.need[p][k],
        {
            proof {
                assert(self.available@[j as int] == s.available[j as int]);
                assert(self.allocation@[p][j as int] == s.allocation[p][j as int]);
                assert(self.need@[p][j as int] == s.need[p][j as int]);
                assert(0 <= request@[j as int] <= s.available[j as int]);
                assert(request@[j as int] <= s.need[p][j as int]);
                assert(s.need[p][j as int] == s.max[p][j as int] - s.allocation[p][j as int]);
            }
            let rj = request[j];
            let a = self.available[j] - rj;
            self.available.set(j, a);
            let al = self.allocation.at(process, j) + rj;
            self.allocation.put(process, j, al);
            let nd = self.need.at(process, j) - rj;
            self.need.put(process, j, nd);
        }
        let ghost g = s.granted(p, request@);
        assert(self.available@ =~= g.available);
        assert(self.allocation@[p] =~= g.allocation[p]);
        assert(self.allocation@ =~= g.allocation);
        assert(self.need@[p] =~= g.need[p]);
        assert(self.need@ =~= g.need);
    }

    /// Undoes `try_allocation` of the same request, restoring the state
    /// `prior` that it started from.
    fn rollback_allocation(&mut self, process: usize, request: &Vec<i32>, Ghost(prior): Ghost<BankState>)
        requires
            old(self).wf(),
            prior.valid(),
            prior.admits(process as int, request@),
            old(self)@ == prior.granted(process as int, request@),
        ensures
            final(self).wf(),
            final(self)@ == prior,
    {
        let ghost s = prior;
        let ghost g = self@;
        let ghost p = process as int;
        let n_res = self.num_resources;
        for j in 0..n_res
            invariant
                n_res == self.num_resources,
                self.max.wf(),
                self.allocation.wf(),
                self.need.wf(),
                self.max.rows == self.num_processes,
                self.allocation.rows == self.num_processes,
                self.need.rows == self.num_processes,
                self.max.cols == self.num_resources,
                self.allocation.cols == self.num_resources,
                self.need.cols == self.num_resources,
                self.available@.len() == self.num_resources,
                s.valid(),
                s.admits(p, request@),
                g == s.granted(p, request@),
                s.res() == self.num_resources,
                s.procs() == self.num_processes,
                process < self.num_processes,
                p == process as int,
                self.max@ == s.max,
                forall|k: int| 0 <= k < j ==> #[trigger] self.available@[k] == s.available[k],
                forall|k: int| j <= k < s.res() ==> #[trigger] self.available@[k] == g.available[k],
                forall|i: int| 0 <= i < s.procs() && i != p ==> #[trigger] self.allocation@[i] == s.allocation[i],
                forall|i: int| 0 <= i < s.procs() && i != p ==> #[trigger] self.need@[i] == s.need[i],
                forall|k: int| 0 <= k < j ==> #[trigger] self.allocation@[p][k] == s.allocation[p][k],
                forall|k: int| j <= k < s.res() ==> #[trigger] self.allocation@[p][k] == g.allocation[p][k],
                forall|k: int| 0 <= k < j ==> #[trigger] self.need@[p][k] == s.need[p][k],
                forall|k: int| j <= k < s.res() ==> #[trigger] self.need@[p][k] == g.need[p][k],
        {
            proof {
                assert(self.available@[j as int] == g.available[j as int]);
                assert(self.allocation@[p][j as int] == g.allocation[p][j as int]);
                assert(self.need@[p][j as int] == g.need[p][j as int]);
                assert(0 <= request@[j as int] <= s.available[j as int]);
                assert(request@[j as int] <= s.need[p][j as int]);
                assert(s.need[p][j as int] == s.max[p][j as int] - s.allocation[p][j as int]);
            }
            let rj = request[j];
            let a = self.available[j] + rj;
            self.available.set(j, a);
            let al = self.allocation.at(process, j) - rj;
            self.allocation.put(process, j, al);
            let nd = self.need.at(process, j) + rj;
            self.need.put(process, j, nd);
        }
        assert(self.available@ =~= s.available);
        assert(self.allocation@[p] =~= s.allocation[p]);
        assert(self.allocation@ =~= s.allocation);
        assert(self.need@[p] =~= s.need[p]);
        assert(self.need@ =~= s.need);
    }

    /// The free units of each resource.
    pub fn available(&self) -> (r: &Vec<i32>)
        requires
            self.wf(),
        ensures
            r@ == self@.available,
    {
        &self.available
    }

    /// The claim table.
    pub fn max(&self) -> (r: &Matrix)
        requires
            self.wf(),
        ensures
            r.wf(),
            r@ == self@.max,
            r.rows == self@.procs(),
            r.cols == self@.res(),
    {
        &self.max
    }

    /// The allocation table.
    pub fn allocation(&self) -> (r: &Matrix)
        requires
            self.wf(),
        ensures
            r.wf(),
            r@ == self@.allocation,
            r.rows == self@.procs(),
            r.cols == self@.res(),
    {
        &self.allocation
    }

    /// The need table.
    pub fn need(&self) -> (r: &Matrix)
        requires
            self.wf(),
        ensures
            r.wf(),
            r@ == self@.need,
            r.rows == self@.procs(),
            r.cols == self@.res(),
    {
        &self.need
    }

    /// Number of processes.
    pub fn num_processes(&self) -> (r: usize)
        requires
            self.wf(),
        ensures
            r == self@.procs(),
    {
        self.num_processes
    }

    /// Number of resource types.
    pub fn num_resources(&self) -> (r: usize)
        requires
            self.wf(),
        ensures
            r == self@.res(),
    {
        self.num_resources
    }
}

/// The safety check depends on the state alone: two checks of one state, with
/// no change in between, report the same verdict and the very same sequence.
pub proof fn lemma_is_safe_repeatable(s: BankState, first: (bool, Seq<usize>), second: (bool, Seq<usize>))
    requires
        first.0 == s.is_safe(),
        as_indices(first.1) == s.safe_sequence(),
        second.0 == s.is_safe(),
        as_indices(second.1) == s.safe_sequence(),
    ensures
        first == second,
{
    let a = first.1;
    let b = second.1;
    assert(as_indices(a).len() == a.len());
    assert(as_indices(b).len() == b.len());
    assert forall|k: int| 0 <= k < a.len() implies a[k] == b[k] by {
        assert(as_indices(a)[k] == as_indices(b)[k]);
    }
    assert(a =~= b);
}

/// No entry of `v` is negative.
fn all_non_negative(v: &Vec<i32>) -> (r: bool)
    ensures
        r == forall|j: int| 0 <= j < v@.len() ==> 0 <= #[trigger] v@[j],
{
    for j in 0..v.len()
        invariant
            forall|k: int| 0 <= k < j ==> 0 <= #[trigger] v@[k],
    {
        if v[j] < 0 {
            return false;
        }
    }
    true
}

} // verus!
