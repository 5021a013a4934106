//! One orbit, step by step: where it was seen, whether it came back to a
//! point it had visited, whether it left the disk, and what it adds to a
//! histogram when it is over.
//!
//! The caller iterates `z <- z * z + c` and reports each `z` as an
//! [`Observation`]; everything decided about the orbit is decided here.

use std::collections::HashSet;
use vstd::prelude::*;
use vstd::std_specs::hash::*;
use crate::histogram::{added, merged, Histogram};
use crate::pixel::PixelCoord;

verus! {

broadcast use vstd::std_specs::hash::group_hash_axioms;

/// A point of the orbit, each coordinate scaled and rounded to an integer.
#[derive(Clone, Copy, Debug, PartialEq, Eq, Structural)]
pub struct Witness {
    pub re: i64,
    pub im: i64,
}

impl Witness {
    /// The key under which the point is remembered: both coordinates, moved
    /// into the non-negative range, side by side.
    pub open spec fn spec_key(self) -> int {
        (self.re - i64::MIN) * 0x1_0000_0000_0000_0000 + (self.im - i64::MIN)
    }

    /// Two points with one key are one point, and every key fits 128 bits.
    pub proof fn lemma_key_injective_all()
        ensures
            forall|a: Witness, b: Witness| #[trigger]
                a.spec_key() == #[trigger] b.spec_key() ==> a == b,
            forall|a: Witness| 0 <= #[trigger] a.spec_key() <= u128::MAX,
    {
    }

    fn key(self) -> (k: u128)
        ensures
            k as int == self.spec_key(),
    {
        let hi: u128 = (self.re as i128 - i64::MIN as i128) as u128;
        let lo: u128 = (self.im as i128 - i64::MIN as i128) as u128;
        hi * 0x1_0000_0000_0000_0000 + lo
    }
}

/// What the caller reports of one `z` of the orbit.
#[derive(Clone, Copy, Debug, PartialEq, Eq, Structural)]
pub struct Observation {
    /// The pixel that `z` falls on.
    pub pixel: PixelCoord,
    /// `z`, scaled and rounded.
    pub point: Witness,
    /// Whether `z` lies outside the disk of radius 2.
    pub outside: bool,
}

/// Where an orbit stands.
#[derive(Clone, Copy, Debug, PartialEq, Eq, Structural)]
pub enum OrbitStatus {
    /// More observations are awaited.
    Running,
    /// The orbit left the disk: its visits count.
    Escaped,
    /// The orbit came back to a point it had visited: it never escapes.
    CycleDetected,
    /// The orbit used up its iterations without escaping.
    BudgetExhausted,
}

/// An orbit as a value: what it has recorded so far.
pub struct OrbitModel {
    /// The visits of this orbit, per pixel.
    pub local: Map<PixelCoord, u64>,
    /// The points visited so far.
    pub visited: Set<Witness>,
    /// The number of observations taken.
    pub steps: nat,
    /// The number of observations after which the orbit is given up.
    pub budget: nat,
    pub status: OrbitStatus,
}

/// An orbit before its first observation. Without iterations it is over at
/// once.
pub open spec fn started(budget: nat) -> OrbitModel {
    OrbitModel {
        local: Map::empty(),
        visited: Set::empty(),
        steps: 0,
        budget,
        status: if budget == 0 {
            OrbitStatus::BudgetExhausted
        } else {
            OrbitStatus::Running
        },
    }
}

/// The orbit `s` after the observation `o`. The visit is recorded first. A
/// point seen before ends the orbit as a cycle; else a point outside the disk
/// ends it as escaped; else the orbit goes on, unless its iterations are used
/// up. An orbit that is over stays as it is.
pub open spec fn observed(s: OrbitModel, o: Observation) -> OrbitModel {
    if s.status != OrbitStatus::Running {
        s
    } else {
        let local = added(s.local, o.pixel, 1);
        let steps = s.steps + 1;
        if s.visited.contains(o.point) {
            OrbitModel { local, steps, status: OrbitStatus::CycleDetected, ..s }
        } else {
            let visited = s.visited.insert(o.point);
            if o.outside {
                OrbitModel { local, visited, steps, status: OrbitStatus::Escaped, ..s }
            } else if steps >= s.budget {
                OrbitModel { local, visited, steps, status: OrbitStatus::BudgetExhausted, ..s }
            } else {
                OrbitModel { local, visited, steps, ..s }
            }
        }
    }
}

/// An orbit with `budget` iterations after the observations `trace`.
pub open spec fn ran(budget: nat, trace: Seq<Observation>) -> OrbitModel
    decreases trace.len(),
{
    if trace.len() == 0 {
        started(budget)
    } else {
        observed(ran(budget, trace.drop_last()), trace.last())
    }
}

/// What an orbit leaves in the histogram `m` when it is over: its visits if
/// it escaped, nothing otherwise.
pub open spec fn deposited(m: Map<PixelCoord, u64>, s: OrbitModel) -> Map<PixelCoord, u64> {
    if s.status == OrbitStatus::Escaped {
        merged(m, s.local)
    } else {
        m
    }
}

/// A running orbit has iterations left, and no orbit takes more
/// observations than it has iterations.
pub proof fn lemma_ran_within_budget(budget: nat, trace: Seq<Observation>)
    ensures
        ran(budget, trace).budget == budget,
        ran(budget, trace).steps <= budget,
        ran(budget, trace).steps <= trace.len(),
        ran(budget, trace).status == OrbitStatus::Running ==> ran(budget, trace).steps
            == trace.len() && trace.len() < budget,
    decreases trace.len(),
{
    if trace.len() > 0 {
        lemma_ran_within_budget(budget, trace.drop_last());
    }
}

/// Every orbit is over once it has been offered as many observations as it
/// has iterations.
pub proof fn lemma_ran_ends(budget: nat, trace: Seq<Observation>)
    requires
        trace.len() >= budget,
    ensures
        ran(budget, trace).status != OrbitStatus::Running,
{
    lemma_ran_within_budget(budget, trace);
}

/// Observations offered to an orbit that is over change nothing.
pub proof fn lemma_ran_stays_over(budget: nat, trace: Seq<Observation>, more: Seq<Observation>)
    requires
        ran(budget, trace).status != OrbitStatus::Running,
    ensures
        ran(budget, trace + more) == ran(budget, trace),
    decreases more.len(),
{
    if more.len() == 0 {
        assert(trace + more =~= trace);
    } else {
        lemma_ran_stays_over(budget, trace, more.drop_last());
        assert((trace + more).drop_last() =~= trace + more.drop_last());
        assert((trace + more).last() == more.last());
    }
}

/// From its first observation on, an orbit with iterations counts a visit
/// of its first pixel.
pub proof fn lemma_ran_counts_its_start(budget: nat, trace: Seq<Observation>)
    requires
        budget >= 1,
        trace.len() >= 1,
    ensures
        ran(budget, trace).local.contains_key(trace[0].pixel),
        ran(budget, trace).local[trace[0].pixel] >= 1,
    decreases trace.len(),
{
    if trace.len() == 1 {
        assert(trace.drop_last() =~= Seq::<Observation>::empty());
        assert(ran(budget, trace.drop_last()) == started(budget));
        assert(ran(budget, trace) == observed(started(budget), trace.last()));
    } else {
        lemma_ran_counts_its_start(budget, trace.drop_last());
        assert(trace.drop_last()[0] == trace[0]);
    }
}

/// An orbit that escaped leaves a visit of its first pixel in the
/// histogram: where one sample escapes, the image is not empty.
pub proof fn lemma_escaped_orbit_leaves_its_start(
    budget: nat,
    trace: Seq<Observation>,
    m: Map<PixelCoord, u64>,
)
    requires
        ran(budget, trace).status == OrbitStatus::Escaped,
    ensures
        trace.len() >= 1,
        deposited(m, ran(budget, trace)).contains_key(trace[0].pixel),
        deposited(m, ran(budget, trace))[trace[0].pixel] >= 1,
{
    lemma_ran_within_budget(budget, trace);
    if trace.len() == 0 {
        assert(ran(budget, trace) == started(budget));
    }
    if budget == 0 {
        lemma_ran_zero_budget(trace);
    }
    lemma_ran_counts_its_start(budget, trace);
}

/// An orbit without iterations is over before its first observation.
pub proof fn lemma_ran_zero_budget(trace: Seq<Observation>)
    ensures
        ran(0, trace) == started(0),
    decreases trace.len(),
{
    if trace.len() > 0 {
        lemma_ran_zero_budget(trace.drop_last());
    }
}

/// An orbit after two observations, written out.
pub proof fn lemma_ran_two(budget: nat, first: Observation, second: Observation)
    ensures
        ran(budget, seq![first, second]) == observed(observed(started(budget), first), second),
{
    let t = seq![first, second];
    let t1 = seq![first];
    assert(t.drop_last() =~= t1);
    assert(t.last() == second);
    assert(t1.drop_last() =~= Seq::<Observation>::empty());
    assert(t1.last() == first);
    assert(ran(budget, Seq::<Observation>::empty()) == started(budget));
    assert(ran(budget, t1) == observed(ran(budget, t1.drop_last()), t1.last()));
    assert(ran(budget, t) == observed(ran(budget, t.drop_last()), t.last()));
}

/// An orbit whose second point lies outside the disk, while its first does
/// not, has escaped after two observations, and its visits are these two.
pub proof fn lemma_escape_after_one_iteration(budget: nat, first: Observation, second: Observation)
    requires
        budget >= 2,
        !first.outside,
        second.outside,
        first.point != second.point,
    ensures
        ran(budget, seq![first, second]).status == OrbitStatus::Escaped,
        ran(budget, seq![first, second]).local == added(
            added(Map::empty(), first.pixel, 1),
            second.pixel,
            1,
        ),
{
    lemma_ran_two(budget, first, second);
}

/// An orbit that comes back to its first point at once is a cycle, and
/// leaves every histogram as it was.
pub proof fn lemma_fixed_point_is_cycle(
    budget: nat,
    first: Observation,
    second: Observation,
    m: Map<PixelCoord, u64>,
)
    requires
        budget >= 2,
        !first.outside,
        first.point == second.point,
    ensures
        ran(budget, seq![first, second]).status == OrbitStatus::CycleDetected,
        deposited(m, ran(budget, seq![first, second])) == m,
{
    lemma_ran_two(budget, first, second);
}

/// One orbit in progress.
pub struct Orbit {
    local: Histogram,
    visited: HashSet<u128>,
    steps: u32,
    budget: u32,
    status: OrbitStatus,
}

impl View for Orbit {
    type V = OrbitModel;

    closed spec fn view(&self) -> OrbitModel {
        OrbitModel {
            local: self.local@,
            visited: Set::new(|w: Witness| self.visited@.contains(w.spec_key() as u128)),
            steps: self.steps as nat,
            budget: self.budget as nat,
            status: if self.status == OrbitStatus::Running && self.steps >= self.budget {
                OrbitStatus::BudgetExhausted
            } else {
                self.status
            },
        }
    }
}

impl Orbit {
    /// An orbit that is given up after `max_iterations` observations.
    pub fn new(max_iterations: u32) -> (orbit: Orbit)
        ensures
            orbit@ == started(max_iterations as nat),
    {
        let status = if max_iterations == 0 {
            OrbitStatus::BudgetExhausted
        } else {
            OrbitStatus::Running
        };
        let orbit = Orbit {
            local: Histogram::new(),
            visited: HashSet::new(),
            steps: 0,
            budget: max_iterations,
            status,
        };
        assert(orbit@.visited =~= Set::<Witness>::empty());
        orbit
    }

    /// Where the orbit stands.
    pub fn status(&self) -> (s: OrbitStatus)
        ensures
            s == self@.status,
    {
        match self.status {
            OrbitStatus::Running => if self.steps >= self.budget {
                OrbitStatus::BudgetExhausted
            } else {
                OrbitStatus::Running
            },
            other => other,
        }
    }

    /// Whether more observations are awaited.
    pub fn is_running(&self) -> (r: bool)
        ensures
            r == (self@.status == OrbitStatus::Running),
    {
        match self.status {
            OrbitStatus::Running => self.steps < self.budget,
            _ => false,
        }
    }

    /// The number of observations taken.
    pub fn steps(&self) -> (n: u32)
        ensures
            n == self@.steps,
    {
        self.steps
    }

    /// The visits of this orbit so far.
    pub fn local(&self) -> (h: &Histogram)
        ensures
            h@ == self@.local,
    {
        &self.local
    }

    /// Takes the next point of the orbit, and says where the orbit stands
    /// after it.
    pub fn observe(&mut self, o: Observation) -> (s: OrbitStatus)
        ensures
            final(self)@ == observed(old(self)@, o),
            s == final(self)@.status,
    {
        if !self.is_running() {
            return self.status();
        }
        self.local.record(o.pixel);
        self.steps = self.steps + 1;
        let fresh = self.visited.insert(o.point.key());
        proof {
            Witness::lemma_key_injective_all();
        }
        if !fresh {
            self.status = OrbitStatus::CycleDetected;
            assert(self@.visited =~= old(self)@.visited);
        } else {
            assert(self@.visited =~= old(self)@.visited.insert(o.point));
            if o.outside {
                self.status = OrbitStatus::Escaped;
            } else if self.steps >= self.budget {
                self.status = OrbitStatus::BudgetExhausted;
            }
        }
        self.status()
    }

    /// Adds the visits of the orbit to `partition` if the orbit escaped, and
    /// leaves `partition` as it is otherwise.
    pub fn deposit(&self, partition: &mut Histogram)
        ensures
            final(partition)@ == deposited(old(partition)@, self@),
    {
        match self.status {
            OrbitStatus::Escaped => {
                partition.merge(&self.local);
            },
            _ => {},
        }
    }
}

/// Runs one orbit over the points `trace`, of which it takes as many as it
/// needs, and adds its visits to `frequency_map` if it escaped. Says how the
/// orbit ended; `Running`, where the points ran out first.
pub fn populate_frequency_map(
    trace: &Vec<Observation>,
    max_iterations: u32,
    frequency_map: &mut Histogram,
) -> (status: OrbitStatus)
    ensures
        status == ran(max_iterations as nat, trace@).status,
        final(frequency_map)@ == deposited(
            old(frequency_map)@,
            ran(max_iterations as nat, trace@),
        ),
{
    let mut orbit = Orbit::new(max_iterations);
    let n = trace.len();
    let mut i: usize = 0;
    while i < n && orbit.is_running()
        invariant
            n == trace@.len(),
            0 <= i <= n,
            orbit@ == ran(max_iterations as nat, trace@.take(i as int)),
        decreases n - i,
    {
        orbit.observe(trace[i]);
        proof {
            assert(trace@.take(i + 1).drop_last() =~= trace@.take(i as int));
            assert(trace@.take(i + 1).last() == trace@[i as int]);
        }
        i = i + 1;
    }
    proof {
        let seen = trace@.take(i as int);
        let rest = trace@.skip(i as int);
        assert(seen + rest =~= trace@);
        if i < n {
            lemma_ran_stays_over(max_iterations as nat, seen, rest);
        } else {
            assert(seen =~= trace@);
        }
    }
    orbit.deposit(frequency_map);
    orbit.status()
}

} // verus!
