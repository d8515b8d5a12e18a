//! Local-search solver: greedy initial construction, then a destroy/repair
//! loop bounded by a no-improvement counter and a wall-clock budget.
//!
//! Randomness comes from an explicitly seeded generator owned by the run, so
//! the search is reproducible for a fixed seed. The wall clock is read
//! through one trusted call; everything the solver decides is verified for
//! every possible reading.

use vstd::multiset::Multiset;
use vstd::prelude::*;

use crate::cache::InsertionCache;
use crate::insertion::{insert_into_best_table_position, inserted_group_spec, insertion_value_spec};
use crate::objective::{solution_value_limit, solution_value_millis, ObjectiveValueCalculator};
use crate::problem::{
    capacity_respected, covers_people, has_person, has_table, lemma_person_ids_no_duplicates,
    person_ids, problem_wf, seated_ids, slots_match, solution_complete, AlgorithmResults,
    ProblemDescription, SlotAssignment, Solution, SolveError, MAX_PEOPLE_FOR_TABLE,
};

verus! {

/// Reads the wall clock. Relies on `chrono::Utc::now` and
/// `chrono::DateTime::timestamp_millis`: the current time as non-leap
/// milliseconds since the Unix epoch. Nothing is assumed of the reading;
/// every decision taken on it is verified for every possible value.
#[verifier::external_body]
fn now_millis() -> i64 {
    chrono::Utc::now().timestamp_millis()
}

/// State transition of the seeded generator (a SplitMix64 step).
pub open spec fn mix_state(s: u64) -> u64 {
    s.wrapping_add(0x9E3779B97F4A7C15u64)
}

/// Output word of one SplitMix64 step from state `s`.
pub open spec fn mix_output(s: u64) -> u64 {
    let z0 = mix_state(s);
    let z1 = (z0 ^ (z0 >> 30u64)).wrapping_mul(0xBF58476D1CE4E5B9u64);
    let z2 = (z1 ^ (z1 >> 27u64)).wrapping_mul(0x94D049BB133111EBu64);
    z2 ^ (z2 >> 31u64)
}

/// The run's own seedable random generator: a SplitMix64 stream. Each draw
/// is a pure function of the state, so a fixed seed fixes the whole run.
pub struct SolverRng {
    pub state: u64,
}

impl SolverRng {
    /// A generator starting from `seed`.
    pub fn new(seed: u64) -> (r: SolverRng)
        ensures
            r.state == seed,
    {
        SolverRng { state: seed }
    }

    /// The next raw 64-bit draw.
    pub fn next_u64(&mut self) -> (r: u64)
        ensures
            final(self).state == mix_state(old(self).state),
            r == mix_output(old(self).state),
    {
        self.state = self.state.wrapping_add(0x9E3779B97F4A7C15u64);
        let z0 = self.state;
        let z1 = (z0 ^ (z0 >> 30u64)).wrapping_mul(0xBF58476D1CE4E5B9u64);
        let z2 = (z1 ^ (z1 >> 27u64)).wrapping_mul(0x94D049BB133111EBu64);
        z2 ^ (z2 >> 31u64)
    }

    /// The next draw, reduced into `0..n`.
    pub fn below(&mut self, n: u64) -> (r: u64)
        requires
            n > 0,
        ensures
            r < n,
            final(self).state == mix_state(old(self).state),
            r == mix_output(old(self).state) % n,
    {
        let x = self.next_u64();
        x % n
    }
}

/// Copies a vector of person ids.
fn clone_people(v: &Vec<usize>) -> (r: Vec<usize>)
    ensures
        r@ == v@,
{
    let mut r: Vec<usize> = Vec::new();
    let mut k: usize = 0;
    while k < v.len()
        invariant
            0 <= k <= v@.len(),
            r@.len() == k,
            forall|j: int| 0 <= j < k ==> r@[j] == v@[j],
        decreases v@.len() - k,
    {
        r.push(v[k]);
        k = k + 1;
    }
    proof {
        assert(r@ =~= v@);
    }
    r
}

/// Copies a working solution (the destroy/repair loop mutates a copy and
/// keeps it only on improvement).
fn clone_solution(s: &Solution) -> (r: Solution)
    ensures
        r@ == s@,
{
    let mut slots: Vec<SlotAssignment> = Vec::new();
    let mut k: usize = 0;
    while k < s.solution_per_table.len()
        invariant
            0 <= k <= s.solution_per_table@.len(),
            slots@.len() == k,
            forall|j: int| 0 <= j < k ==> (#[trigger] slots@[j]@) == s.solution_per_table@[j]@,
        decreases s.solution_per_table@.len() - k,
    {
        let slot = &s.solution_per_table[k];
        slots.push(SlotAssignment { table_day_id: slot.table_day_id, people: clone_people(&slot.people) });
        k = k + 1;
    }
    let r = Solution { solution_per_table: slots };
    proof {
        assert(r@ =~= s@);
    }
    r
}

/// Structural facts the solver maintains on its working solution: the slot
/// list mirrors the problem's tables, no slot is over capacity, and every
/// seated id is a known person.
pub open spec fn working_wf(p: ProblemDescription, sol: Seq<(usize, Seq<usize>)>) -> bool {
    &&& slots_match(p, sol)
    &&& capacity_respected(sol)
    &&& forall|i: int, j: int|
        0 <= i < sol.len() && 0 <= j < sol[i].1.len() ==> has_person(
            p.people@,
            #[trigger] sol[i].1[j],
        )
}

/// Every slot of the working solution is at capacity.
pub open spec fn all_slots_full(sol: Seq<(usize, Seq<usize>)>) -> bool {
    forall|i: int| 0 <= i < sol.len() ==> (#[trigger] sol[i].1).len() >= MAX_PEOPLE_FOR_TABLE
}

/// Length of a flattened sequence of sequences: bounded by the per-element
/// cap, reaching the cap exactly when every element is full, and nonzero
/// only when some element is nonempty.
proof fn lemma_flatten_len(m: Seq<Seq<usize>>)
    requires
        forall|i: int| 0 <= i < m.len() ==> (#[trigger] m[i]).len() <= MAX_PEOPLE_FOR_TABLE,
    ensures
        m.flatten().len() <= MAX_PEOPLE_FOR_TABLE * m.len(),
        (m.flatten().len() == MAX_PEOPLE_FOR_TABLE * m.len()) <==> (forall|i: int|
            0 <= i < m.len() ==> (#[trigger] m[i]).len() >= MAX_PEOPLE_FOR_TABLE),
        m.flatten().len() > 0 ==> exists|i: int| 0 <= i < m.len() && m[i].len() > 0,
    decreases m.len(),
{
    if m.len() == 0 {
        assert(m.flatten().len() == 0);
    } else {
        let rest = m.drop_first();
        assert(forall|i: int|
            0 <= i < rest.len() ==> (#[trigger] rest[i]).len() <= MAX_PEOPLE_FOR_TABLE) by {
            assert(forall|i: int| 0 <= i < rest.len() ==> rest[i] == m[i + 1]);
        }
        lemma_flatten_len(rest);
        assert(m.flatten() == m.first() + rest.flatten());
        assert(m.flatten().len() == m.first().len() + rest.flatten().len());
        if m.flatten().len() == MAX_PEOPLE_FOR_TABLE * m.len() {
            assert(MAX_PEOPLE_FOR_TABLE * m.len() == MAX_PEOPLE_FOR_TABLE * rest.len()
                + MAX_PEOPLE_FOR_TABLE) by (nonlinear_arith)
                requires
                    m.len() == rest.len() + 1,
            ;
            assert(m.first().len() == MAX_PEOPLE_FOR_TABLE);
            assert(rest.flatten().len() == MAX_PEOPLE_FOR_TABLE * rest.len());
            assert forall|i: int| 0 <= i < m.len() implies (#[trigger] m[i]).len()
                >= MAX_PEOPLE_FOR_TABLE by {
                if i > 0 {
                    assert(m[i] == rest[i - 1]);
                }
            }
        }
        if forall|i: int| 0 <= i < m.len() ==> (#[trigger] m[i]).len() >= MAX_PEOPLE_FOR_TABLE {
            assert(forall|i: int|
                0 <= i < rest.len() ==> (#[trigger] rest[i]).len() >= MAX_PEOPLE_FOR_TABLE) by {
                assert(forall|i: int| 0 <= i < rest.len() ==> rest[i] == m[i + 1]);
            }
            assert(m.first().len() == MAX_PEOPLE_FOR_TABLE);
            assert(MAX_PEOPLE_FOR_TABLE * m.len() == MAX_PEOPLE_FOR_TABLE * rest.len()
                + MAX_PEOPLE_FOR_TABLE) by (nonlinear_arith)
                requires
                    m.len() == rest.len() + 1,
            ;
        }
        assert(MAX_PEOPLE_FOR_TABLE * m.len() >= MAX_PEOPLE_FOR_TABLE * rest.len()
            + MAX_PEOPLE_FOR_TABLE) by (nonlinear_arith)
            requires
                m.len() == rest.len() + 1,
        ;
        if m.flatten().len() > 0 {
            if m.first().len() > 0 {
                assert(m[0].len() > 0);
            } else {
                let i = choose|i: int| 0 <= i < rest.len() && rest[i].len() > 0;
                assert(m[i + 1].len() > 0);
            }
        }
    }
}

/// `lemma_flatten_len`, stated on a working solution's seated ids.
proof fn lemma_seated_len(sol: Seq<(usize, Seq<usize>)>)
    requires
        capacity_respected(sol),
    ensures
        seated_ids(sol).len() <= MAX_PEOPLE_FOR_TABLE * sol.len(),
        (seated_ids(sol).len() == MAX_PEOPLE_FOR_TABLE * sol.len()) <==> all_slots_full(sol),
        seated_ids(sol).len() > 0 ==> exists|i: int| 0 <= i < sol.len() && sol[i].1.len() > 0,
{
    let m = sol.map_values(|t: (usize, Seq<usize>)| t.1);
    assert(forall|i: int| 0 <= i < m.len() ==> (#[trigger] m[i]).len() <= MAX_PEOPLE_FOR_TABLE)
        by {
        assert(forall|i: int| 0 <= i < sol.len() ==> m[i] == sol[i].1);
    }
    lemma_flatten_len(m);
    assert(forall|i: int| 0 <= i < sol.len() ==> (#[trigger] sol[i].1) == m[i]);
    if exists|i: int| 0 <= i < m.len() && m[i].len() > 0 {
        let i = choose|i: int| 0 <= i < m.len() && m[i].len() > 0;
        assert(sol[i].1.len() > 0);
    }
}

/// Updating one slot's occupants changes the seated multiset by exactly the
/// difference between the old and the new occupants of that slot.
proof fn lemma_flatten_update_multiset(m: Seq<Seq<usize>>, b: int, g2: Seq<usize>)
    requires
        0 <= b < m.len(),
    ensures
        m.update(b, g2).flatten().to_multiset().add(m[b].to_multiset())
            == m.flatten().to_multiset().add(g2.to_multiset()),
    decreases m.len(),
{
    broadcast use vstd::multiset::group_multiset_axioms;

    let mu = m.update(b, g2);
    assert(mu.len() == m.len());
    if b == 0 {
        assert(mu.first() == g2);
        assert(mu.drop_first() =~= m.drop_first());
        assert(mu.flatten() == g2 + m.drop_first().flatten());
        assert(m.flatten() == m[0] + m.drop_first().flatten());
        vstd::seq_lib::lemma_multiset_commutative(g2, m.drop_first().flatten());
        vstd::seq_lib::lemma_multiset_commutative(m[0], m.drop_first().flatten());
        assert(mu.flatten().to_multiset().add(m[0].to_multiset()) =~= m.flatten().to_multiset()
            .add(g2.to_multiset()));
    } else {
        assert(mu.first() == m.first());
        assert(mu.drop_first() =~= m.drop_first().update(b - 1, g2));
        lemma_flatten_update_multiset(m.drop_first(), b - 1, g2);
        assert(mu.flatten() == m.first() + m.drop_first().update(b - 1, g2).flatten());
        assert(m.flatten() == m.first() + m.drop_first().flatten());
        vstd::seq_lib::lemma_multiset_commutative(
            m.first(),
            m.drop_first().update(b - 1, g2).flatten(),
        );
        vstd::seq_lib::lemma_multiset_commutative(m.first(), m.drop_first().flatten());
        assert(m.drop_first()[b - 1] == m[b]);
        let mdu = m.drop_first().update(b - 1, g2);
        assert forall|x: usize| mu.flatten().to_multiset().add(m[b].to_multiset()).count(x)
            == m.flatten().to_multiset().add(g2.to_multiset()).count(x) by {
            assert(mu.flatten().to_multiset().count(x) == m.first().to_multiset().count(x)
                + mdu.flatten().to_multiset().count(x));
            assert(m.flatten().to_multiset().count(x) == m.first().to_multiset().count(x)
                + m.drop_first().flatten().to_multiset().count(x));
            assert(mdu.flatten().to_multiset().add(m[b].to_multiset()).count(x)
                == m.drop_first().flatten().to_multiset().add(g2.to_multiset()).count(x));
            assert(mdu.flatten().to_multiset().count(x) + m[b].to_multiset().count(x)
                == m.drop_first().flatten().to_multiset().count(x) + g2.to_multiset().count(x));
        }
        assert(mu.flatten().to_multiset().add(m[b].to_multiset()) =~= m.flatten().to_multiset()
            .add(g2.to_multiset()));
    }
}

/// `lemma_flatten_update_multiset`, stated on a working solution.
proof fn lemma_seated_update_multiset(sol: Seq<(usize, Seq<usize>)>, b: int, g2: Seq<usize>)
    requires
        0 <= b < sol.len(),
    ensures
        seated_ids(sol.update(b, (sol[b].0, g2))).to_multiset().add(sol[b].1.to_multiset())
            == seated_ids(sol).to_multiset().add(g2.to_multiset()),
{
    let m = sol.map_values(|t: (usize, Seq<usize>)| t.1);
    let solu = sol.update(b, (sol[b].0, g2));
    assert(solu.map_values(|t: (usize, Seq<usize>)| t.1) =~= m.update(b, g2));
    assert(m[b] == sol[b].1);
    lemma_flatten_update_multiset(m, b, g2);
}

/// Earliest slot index among `0..n` whose best insertion value for `pid` is
/// highest, with that value; `None` when no slot among them can take the
/// person.
pub open spec fn best_slot_upto(
    p: ProblemDescription,
    sol: Seq<(usize, Seq<usize>)>,
    pid: usize,
    n: int,
) -> Option<(int, int)>
    decreases n,
{
    if n <= 0 {
        Option::None
    } else {
        let prev = best_slot_upto(p, sol, pid, n - 1);
        let c = insertion_value_spec(p, sol[n - 1].0, sol[n - 1].1, pid);
        match (prev, c) {
            (Option::None, Option::None) => Option::None,
            (Option::None, Option::Some(v)) => Option::Some((n - 1, v)),
            (Option::Some(b), Option::None) => Option::Some(b),
            (Option::Some(b), Option::Some(v)) => if v > b.1 {
                Option::Some((n - 1, v))
            } else {
                Option::Some(b)
            },
        }
    }
}

/// The working solution after placing `pid` at its best slot and position
/// (meaningful when some slot can take the person).
pub open spec fn placed_person(
    p: ProblemDescription,
    sol: Seq<(usize, Seq<usize>)>,
    pid: usize,
) -> Seq<(usize, Seq<usize>)> {
    let b = best_slot_upto(p, sol, pid, sol.len() as int).unwrap().0;
    sol.update(b, (sol[b].0, inserted_group_spec(p, sol[b].0, sol[b].1, pid)))
}

/// Places one person into the slot and seat position with the highest
/// marginal gain, consulting the cache for per-slot insertion values and
/// breaking ties toward the earliest slot. Fails exactly when every slot is
/// at capacity.
fn insert_person(
    calc: &ObjectiveValueCalculator,
    cache: &mut InsertionCache,
    sol: &mut Solution,
    pid: usize,
) -> (r: Result<(), SolveError>)
    requires
        calc.wf(),
        old(cache).wf(),
        old(cache).problem@ == calc.problem@,
        working_wf(calc.problem@, old(sol)@),
        has_person(calc.problem@.people@, pid),
    ensures
        final(cache).wf(),
        final(cache).problem@ == calc.problem@,
        working_wf(calc.problem@, final(sol)@),
        final(sol)@.len() == old(sol)@.len(),
        (r is Err) <==> all_slots_full(old(sol)@),
        r is Err ==> final(sol)@ == old(sol)@ && r == Result::<(), SolveError>::Err(
            SolveError::Infeasible,
        ),
        r is Ok ==> seated_ids(final(sol)@).to_multiset() == seated_ids(
            old(sol)@,
        ).to_multiset().insert(pid) && seated_ids(final(sol)@).len() == seated_ids(
            old(sol)@,
        ).len() + 1,
        (r is Err) <==> best_slot_upto(calc.problem@, old(sol)@, pid, old(sol)@.len() as int)
            is None,
        r is Ok ==> final(sol)@ == placed_person(calc.problem@, old(sol)@, pid),
{
    broadcast use vstd::multiset::group_multiset_axioms;

    let ghost problem = calc.problem@;
    let ghost sol0 = sol@;
    let n = sol.solution_per_table.len();
    proof {
        assert(sol0.len() == n);
    }
    let mut best: Option<(usize, i64)> = Option::None;
    let mut i: usize = 0;
    while i < n
        invariant
            calc.wf(),
            problem == calc.problem@,
            cache.wf(),
            cache.problem@ == problem,
            sol@ == sol0,
            working_wf(problem, sol0),
            has_person(problem.people@, pid),
            n == sol0.len(),
            n == sol.solution_per_table@.len(),
            0 <= i <= n,
            match best {
                Option::None => best_slot_upto(problem, sol0, pid, i as int) is None
                    && forall|j: int|
                    0 <= j < i ==> (#[trigger] sol0[j].1).len() >= MAX_PEOPLE_FOR_TABLE,
                Option::Some((bi, bv)) => best_slot_upto(problem, sol0, pid, i as int)
                    == Option::Some((bi as int, bv as int)) && 0 <= bi < n && sol0[bi as int].1.len()
                    < MAX_PEOPLE_FOR_TABLE,
            },
        decreases n - i,
    {
        let slot = &sol.solution_per_table[i];
        proof {
            assert(sol0[i as int] == slot@);
            assert(sol0[i as int].0 == problem.tables@[i as int].id);
            assert(has_table(problem.tables@, slot.table_day_id));
            assert forall|j: int| 0 <= j < slot.people@.len() implies has_person(
                problem.people@,
                #[trigger] slot.people@[j],
            ) by {
                assert(sol0[i as int].1[j] == slot.people@[j]);
            }
            assert(sol0[i as int].1.len() <= MAX_PEOPLE_FOR_TABLE);
        }
        let v = cache.get_or_compute(calc, slot.table_day_id, &slot.people, pid);
        match v {
            Option::Some(val) => {
                proof {
                    assert(slot.people@.len() < MAX_PEOPLE_FOR_TABLE);
                }
                let take_it = match best {
                    Option::None => true,
                    Option::Some((_, bv)) => val > bv,
                };
                if take_it {
                    best = Option::Some((i, val));
                }
            },
            Option::None => {
                proof {
                    assert(sol0[i as int].1.len() >= MAX_PEOPLE_FOR_TABLE);
                }
            },
        }
        i = i + 1;
    }
    match best {
        Option::None => {
            proof {
                assert(all_slots_full(sol0));
            }
            Result::Err(SolveError::Infeasible)
        },
        Option::Some((b, _)) => {
            proof {
                assert(!all_slots_full(sol0));
            }
            let tid = sol.solution_per_table[b].table_day_id;
            proof {
                assert(sol0[b as int].0 == tid);
                assert(has_table(problem.tables@, tid));
                assert forall|j: int| 0 <= j < sol0[b as int].1.len() implies has_person(
                    problem.people@,
                    #[trigger] sol0[b as int].1[j],
                ) by {}
            }
            let res = insert_into_best_table_position(
                calc,
                tid,
                &sol.solution_per_table[b].people,
                pid,
            );
            match res {
                Option::None => {
                    proof {
                        assert(false);
                    }
                    Result::Err(SolveError::Infeasible)
                },
                Option::Some((new_people, _val)) => {
                    let ghost g_old = sol0[b as int].1;
                    let ghost g_new = new_people@;
                    proof {
                        assert(g_new.to_multiset() == g_old.to_multiset().insert(pid));
                        assert(g_new.len() == g_old.len() + 1);
                        assert forall|j: int| 0 <= j < g_new.len() implies has_person(
                            problem.people@,
                            #[trigger] g_new[j],
                        ) by {
                            g_old.to_multiset_ensures();
                            g_new.to_multiset_ensures();
                            assert(g_new.contains(g_new[j]));
                            assert(g_new.to_multiset().count(g_new[j]) > 0);
                            if g_new[j] != pid {
                                assert(g_old.to_multiset().count(g_new[j]) > 0);
                                assert(g_old.contains(g_new[j]));
                                let l = choose|l: int|
                                    0 <= l < g_old.len() && g_old[l] == g_new[j];
                                assert(sol0[b as int].1[l] == g_new[j]);
                            }
                        }
                    }
                    sol.solution_per_table.set(
                        b,
                        SlotAssignment { table_day_id: tid, people: new_people },
                    );
                    proof {
                        assert(sol@ =~= sol0.update(b as int, (sol0[b as int].0, g_new)));
                        lemma_seated_update_multiset(sol0, b as int, g_new);
                        let s_old = seated_ids(sol0).to_multiset();
                        let s_new = seated_ids(sol@).to_multiset();
                        assert forall|x: usize| s_new.count(x) == s_old.insert(pid).count(x) by {
                            assert(s_new.add(g_old.to_multiset()).count(x) == s_old.add(
                                g_new.to_multiset(),
                            ).count(x));
                            assert(g_new.to_multiset().count(x) == g_old.to_multiset().insert(
                                pid,
                            ).count(x));
                        }
                        assert(s_new =~= s_old.insert(pid));
                        seated_ids(sol0).to_multiset_ensures();
                        seated_ids(sol@).to_multiset_ensures();
                        assert(seated_ids(sol@).len() == seated_ids(sol0).len() + 1);
                        assert(working_wf(problem, sol@)) by {
                            assert forall|i2: int, j: int|
                                0 <= i2 < sol@.len() && 0 <= j < sol@[i2].1.len() implies has_person(
                                problem.people@,
                                #[trigger] sol@[i2].1[j],
                            ) by {
                                if i2 != b as int {
                                    assert(sol@[i2] == sol0[i2]);
                                }
                            }
                        }
                        assert(best_slot_upto(problem, sol0, pid, sol0.len() as int).unwrap().0
                            == b as int);
                        assert(g_new == inserted_group_spec(
                            problem,
                            sol0[b as int].0,
                            sol0[b as int].1,
                            pid,
                        ));
                        assert(sol@ == placed_person(problem, sol0, pid));
                    }
                    Result::Ok(())
                },
            }
        },
    }
}

/// The working solution after placing the first `j` listed people in turn,
/// each at their best slot and position; `None` when one of them could not
/// be placed.
pub open spec fn placed_all_upto(
    p: ProblemDescription,
    sol: Seq<(usize, Seq<usize>)>,
    people: Seq<usize>,
    j: int,
) -> Option<Seq<(usize, Seq<usize>)>>
    decreases j,
{
    if j <= 0 {
        Option::Some(sol)
    } else {
        match placed_all_upto(p, sol, people, j - 1) {
            Option::None => Option::None,
            Option::Some(s) => if best_slot_upto(p, s, people[j - 1], s.len() as int) is None {
                Option::None
            } else {
                Option::Some(placed_person(p, s, people[j - 1]))
            },
        }
    }
}

/// The working solution after placing every listed person.
pub open spec fn placed_all(
    p: ProblemDescription,
    sol: Seq<(usize, Seq<usize>)>,
    people: Seq<usize>,
) -> Option<Seq<(usize, Seq<usize>)>> {
    placed_all_upto(p, sol, people, people.len() as int)
}

/// Once a person fails to fit, the whole placement fails.
proof fn lemma_placed_none_sticks(
    p: ProblemDescription,
    sol: Seq<(usize, Seq<usize>)>,
    people: Seq<usize>,
    j: int,
    j2: int,
)
    requires
        placed_all_upto(p, sol, people, j) is None,
        j <= j2,
    ensures
        placed_all_upto(p, sol, people, j2) is None,
    decreases j2 - j,
{
    if j < j2 {
        lemma_placed_none_sticks(p, sol, people, j, j2 - 1);
    }
}

/// Seats each listed person in turn at their best slot and position. Fails
/// exactly when the people do not fit in the remaining capacity.
fn insert_into_best_positions(
    calc: &ObjectiveValueCalculator,
    cache: &mut InsertionCache,
    sol: &mut Solution,
    to_insert: &Vec<usize>,
) -> (r: Result<(), SolveError>)
    requires
        calc.wf(),
        old(cache).wf(),
        old(cache).problem@ == calc.problem@,
        working_wf(calc.problem@, old(sol)@),
        forall|i: int|
            0 <= i < to_insert@.len() ==> has_person(calc.problem@.people@, #[trigger] to_insert@[i]),
    ensures
        final(cache).wf(),
        final(cache).problem@ == calc.problem@,
        working_wf(calc.problem@, final(sol)@),
        final(sol)@.len() == old(sol)@.len(),
        (r is Err) <==> seated_ids(old(sol)@).len() + to_insert@.len() > MAX_PEOPLE_FOR_TABLE
            * old(sol)@.len(),
        r is Err ==> r == Result::<(), SolveError>::Err(SolveError::Infeasible),
        r is Ok ==> seated_ids(final(sol)@).to_multiset() == seated_ids(
            old(sol)@,
        ).to_multiset().add(to_insert@.to_multiset()) && seated_ids(final(sol)@).len()
            == seated_ids(old(sol)@).len() + to_insert@.len(),
        r is Ok ==> placed_all(calc.problem@, old(sol)@, to_insert@) == Option::Some(final(sol)@),
        (r is Err) <==> placed_all(calc.problem@, old(sol)@, to_insert@) is None,
{
    broadcast use vstd::multiset::group_multiset_axioms;

    let ghost problem = calc.problem@;
    let ghost sol0 = sol@;
    let ghost len0 = seated_ids(sol0).len();
    proof {
        assert(to_insert@.take(0) =~= Seq::<usize>::empty());
        to_insert@.take(0).to_multiset_ensures();
        assert forall|x: usize| to_insert@.take(0).to_multiset().count(x) == 0 by {
            assert(!to_insert@.take(0).contains(x));
        }
        assert(to_insert@.take(0).to_multiset() =~= Multiset::<usize>::empty());
        assert(seated_ids(sol0).to_multiset().add(to_insert@.take(0).to_multiset())
            =~= seated_ids(sol0).to_multiset());
    }
    let m = to_insert.len();
    let mut j: usize = 0;
    while j < m
        invariant
            calc.wf(),
            problem == calc.problem@,
            cache.wf(),
            cache.problem@ == problem,
            working_wf(problem, sol@),
            sol0 == old(sol)@,
            forall|i: int|
                0 <= i < to_insert@.len() ==> has_person(problem.people@, #[trigger] to_insert@[i]),
            m == to_insert@.len(),
            0 <= j <= m,
            sol@.len() == sol0.len(),
            len0 == seated_ids(sol0).len(),
            seated_ids(sol@).to_multiset() == seated_ids(sol0).to_multiset().add(
                to_insert@.take(j as int).to_multiset(),
            ),
            seated_ids(sol@).len() == len0 + j,
            placed_all_upto(problem, sol0, to_insert@, j as int) == Option::Some(sol@),
        decreases m - j,
    {
        let pid = to_insert[j];
        let ghost before = sol@;
        let res = insert_person(calc, cache, sol, pid);
        match res {
            Result::Err(_) => {
                proof {
                    lemma_seated_len(before);
                    assert(seated_ids(before).len() == MAX_PEOPLE_FOR_TABLE * before.len());
                    assert(len0 + j == MAX_PEOPLE_FOR_TABLE * sol0.len());
                    assert(len0 + m > MAX_PEOPLE_FOR_TABLE * sol0.len());
                    assert(placed_all_upto(problem, sol0, to_insert@, j + 1) is None);
                    lemma_placed_none_sticks(problem, sol0, to_insert@, j + 1, m as int);
                }
                return Result::Err(SolveError::Infeasible);
            },
            Result::Ok(()) => {
                proof {
                    to_insert@.take(j as int).to_multiset_ensures();
                    assert(to_insert@.take(j + 1) =~= to_insert@.take(j as int).push(pid));
                    assert(to_insert@.take(j + 1).to_multiset() =~= to_insert@.take(
                        j as int,
                    ).to_multiset().insert(pid));
                    let s_before = seated_ids(before).to_multiset();
                    let s_after = seated_ids(sol@).to_multiset();
                    assert(s_after == s_before.insert(pid));
                    assert forall|x: usize| s_after.count(x) == seated_ids(
                        sol0,
                    ).to_multiset().add(to_insert@.take(j + 1).to_multiset()).count(x) by {
                        assert(s_before.count(x) == seated_ids(sol0).to_multiset().count(x)
                            + to_insert@.take(j as int).to_multiset().count(x));
                    }
                    assert(s_after =~= seated_ids(sol0).to_multiset().add(
                        to_insert@.take(j + 1).to_multiset(),
                    ));
                    assert(!(best_slot_upto(problem, before, pid, before.len() as int) is None));
                    assert(sol@ == placed_person(problem, before, pid));
                    assert(placed_all_upto(problem, sol0, to_insert@, j + 1) == Option::Some(
                        sol@,
                    ));
                }
            },
        }
        j = j + 1;
    }
    proof {
        assert(to_insert@.take(m as int) =~= to_insert@);
        lemma_seated_len(sol@);
        assert(len0 + m <= MAX_PEOPLE_FOR_TABLE * sol0.len());
    }
    Result::Ok(())
}

/// Flattening all-empty sequences gives the empty sequence.
proof fn lemma_flatten_empty(m: Seq<Seq<usize>>)
    requires
        forall|i: int| 0 <= i < m.len() ==> (#[trigger] m[i]).len() == 0,
    ensures
        m.flatten() =~= Seq::<usize>::empty(),
    decreases m.len(),
{
    if m.len() > 0 {
        let rest = m.drop_first();
        assert(forall|i: int| 0 <= i < rest.len() ==> (#[trigger] rest[i]).len() == 0) by {
            assert(forall|i: int| 0 <= i < rest.len() ==> rest[i] == m[i + 1]);
        }
        lemma_flatten_empty(rest);
        assert(m[0].len() == 0);
        assert(m.flatten() == m.first() + rest.flatten());
    }
}

/// A working solution can be handed to the evaluator: every referenced id is
/// known and the slot count is within bounds.
proof fn lemma_working_ids_ok(p: ProblemDescription, sol: Seq<(usize, Seq<usize>)>)
    requires
        problem_wf(p),
        working_wf(p, sol),
    ensures
        crate::objective::solution_ids_ok(p, sol),
        sol.len() <= crate::problem::MAX_TABLE_DAYS,
{
    assert forall|i: int| 0 <= i < sol.len() implies has_table(p.tables@, (#[trigger] sol[i]).0)
        by {
        assert(sol[i].0 == p.tables@[i].id);
    }
}

/// A covering solution seats exactly as many people as the problem has.
proof fn lemma_covers_len(p: ProblemDescription, sol: Seq<(usize, Seq<usize>)>)
    requires
        problem_wf(p),
        covers_people(p, sol),
    ensures
        seated_ids(sol).len() == p.people@.len(),
{
    lemma_person_ids_no_duplicates(p);
    seated_ids(sol).unique_seq_to_set();
    person_ids(p.people@).unique_seq_to_set();
}

/// One empty occupant list per table-day slot of the problem.
fn empty_solution(problem: &ProblemDescription) -> (r: Solution)
    requires
        problem_wf(*problem),
    ensures
        working_wf(*problem, r@),
        r@.len() == problem.tables@.len(),
        seated_ids(r@) =~= Seq::<usize>::empty(),
        r@ == empty_start(*problem),
{
    let mut slots: Vec<SlotAssignment> = Vec::new();
    let mut k: usize = 0;
    while k < problem.tables.len()
        invariant
            0 <= k <= problem.tables@.len(),
            slots@.len() == k,
            forall|j: int|
                0 <= j < k ==> (#[trigger] slots@[j]@).0 == problem.tables@[j].id && slots@[j]@.1.len()
                    == 0,
        decreases problem.tables@.len() - k,
    {
        slots.push(SlotAssignment { table_day_id: problem.tables[k].id, people: Vec::new() });
        k = k + 1;
    }
    let r = Solution { solution_per_table: slots };
    proof {
        assert(forall|j: int| 0 <= j < r@.len() ==> (#[trigger] r@[j]) == slots@[j]@);
        let m = r@.map_values(|t: (usize, Seq<usize>)| t.1);
        assert(forall|i: int| 0 <= i < m.len() ==> (#[trigger] m[i]).len() == 0) by {
            assert(forall|i: int| 0 <= i < r@.len() ==> m[i] == r@[i].1);
        }
        lemma_flatten_empty(m);
        assert(r@ =~~= empty_start(*problem));
    }
    r
}

/// Indices of the non-empty slots among the first `n`, in order.
pub open spec fn nonempty_upto(sol: Seq<(usize, Seq<usize>)>, n: int) -> Seq<usize>
    decreases n,
{
    if n <= 0 {
        Seq::empty()
    } else {
        let prev = nonempty_upto(sol, n - 1);
        if sol[n - 1].1.len() > 0 {
            prev.push((n - 1) as usize)
        } else {
            prev
        }
    }
}

/// Indices of all non-empty slots, in order.
pub open spec fn nonempty_indices(sol: Seq<(usize, Seq<usize>)>) -> Seq<usize> {
    nonempty_upto(sol, sol.len() as int)
}

/// One destroy pick: the generator chooses a non-empty slot, then an
/// occupant index within it; that occupant leaves. Returns the new working
/// solution, the removed person, and the generator state.
pub open spec fn destroy_step(sol: Seq<(usize, Seq<usize>)>, state: u64) -> (
    Seq<(usize, Seq<usize>)>,
    usize,
    u64,
) {
    let ne = nonempty_indices(sol);
    let t = mix_output(state) as int % (ne.len() as int);
    let state2 = mix_state(state);
    let s = ne[t] as int;
    let idx = mix_output(state2) as int % (sol[s].1.len() as int);
    let state3 = mix_state(state2);
    (sol.update(s, (sol[s].0, sol[s].1.remove(idx))), sol[s].1[idx], state3)
}

/// The working solution, removed people, and generator state after `k`
/// destroy picks.
pub open spec fn destroyed_upto(sol: Seq<(usize, Seq<usize>)>, state: u64, k: int) -> (
    Seq<(usize, Seq<usize>)>,
    Seq<usize>,
    u64,
)
    decreases k,
{
    if k <= 0 {
        (sol, Seq::<usize>::empty(), state)
    } else {
        let prev = destroyed_upto(sol, state, k - 1);
        let step = destroy_step(prev.0, prev.2);
        (step.0, prev.1.push(step.1), step.2)
    }
}

/// Removes `k` people from the working solution: each pick takes a random
/// non-empty slot and a random occupant index within it. Returns the
/// removed people.
fn remove_random_people(
    rng: &mut SolverRng,
    sol: &mut Solution,
    k: usize,
    Ghost(problem): Ghost<ProblemDescription>,
) -> (removed: Vec<usize>)
    requires
        working_wf(problem, old(sol)@),
        k <= seated_ids(old(sol)@).len(),
    ensures
        working_wf(problem, final(sol)@),
        final(sol)@.len() == old(sol)@.len(),
        removed@.len() == k,
        seated_ids(final(sol)@).to_multiset().add(removed@.to_multiset()) == seated_ids(
            old(sol)@,
        ).to_multiset(),
        seated_ids(final(sol)@).len() + k == seated_ids(old(sol)@).len(),
        forall|i: int| 0 <= i < removed@.len() ==> has_person(problem.people@, #[trigger] removed@[i]),
        final(sol)@ == destroyed_upto(old(sol)@, old(rng).state, k as int).0,
        removed@ == destroyed_upto(old(sol)@, old(rng).state, k as int).1,
        final(rng).state == destroyed_upto(old(sol)@, old(rng).state, k as int).2,
{
    broadcast use vstd::multiset::group_multiset_axioms;

    let ghost sol0 = sol@;
    let ghost state0 = rng.state;
    let mut removed: Vec<usize> = Vec::new();
    proof {
        removed@.to_multiset_ensures();
        assert forall|x: usize| removed@.to_multiset().count(x) == 0 by {
            assert(!removed@.contains(x));
        }
        assert(seated_ids(sol0).to_multiset().add(removed@.to_multiset()) =~= seated_ids(
            sol0,
        ).to_multiset());
    }
    let mut step: usize = 0;
    while step < k
        invariant
            working_wf(problem, sol@),
            sol0 == old(sol)@,
            state0 == old(rng).state,
            sol@.len() == sol0.len(),
            0 <= step <= k,
            k <= seated_ids(sol0).len(),
            removed@.len() == step,
            seated_ids(sol@).to_multiset().add(removed@.to_multiset()) == seated_ids(
                sol0,
            ).to_multiset(),
            seated_ids(sol@).len() + step == seated_ids(sol0).len(),
            forall|i: int|
                0 <= i < removed@.len() ==> has_person(problem.people@, #[trigger] removed@[i]),
            sol@ == destroyed_upto(sol0, state0, step as int).0,
            removed@ == destroyed_upto(sol0, state0, step as int).1,
            rng.state == destroyed_upto(sol0, state0, step as int).2,
        decreases k - step,
    {
        let ghost before = sol@;
        let n = sol.solution_per_table.len();
        let mut nonempty: Vec<usize> = Vec::new();
        let mut i: usize = 0;
        while i < n
            invariant
                n == sol.solution_per_table@.len(),
                n == sol@.len(),
                0 <= i <= n,
                sol@ == before,
                nonempty@.len() == 0 ==> forall|j: int|
                    0 <= j < i ==> (#[trigger] sol@[j].1).len() == 0,
                forall|e: int|
                    0 <= e < nonempty@.len() ==> 0 <= (#[trigger] nonempty@[e]) < n && sol@[
                        nonempty@[e] as int
                    ].1.len() > 0,
                nonempty@ == nonempty_upto(before, i as int),
            decreases n - i,
        {
            proof {
                assert(sol@[i as int] == sol.solution_per_table@[i as int]@);
            }
            if sol.solution_per_table[i].people.len() > 0 {
                nonempty.push(i);
            }
            proof {
                assert(nonempty@ =~= nonempty_upto(before, i + 1));
            }
            i = i + 1;
        }
        proof {
            lemma_seated_len(before);
            assert(seated_ids(before).len() > 0);
            if nonempty@.len() == 0 {
                let w = choose|w: int| 0 <= w < before.len() && before[w].1.len() > 0;
                assert(false);
            }
        }
        let ghost st_before = rng.state;
        let t = rng.below(nonempty.len() as u64) as usize;
        let s = nonempty[t];
        let tid = sol.solution_per_table[s].table_day_id;
        let slot_len = sol.solution_per_table[s].people.len();
        let idx = rng.below(slot_len as u64) as usize;
        let mut g = clone_people(&sol.solution_per_table[s].people);
        let ghost g_old = g@;
        let p = g.remove(idx);
        proof {
            assert(sol@[s as int] == sol.solution_per_table@[s as int]@);
            assert(g_old == before[s as int].1);
            assert(p == g_old[idx as int]);
            assert(has_person(problem.people@, p)) by {
                assert(before[s as int].1[idx as int] == p);
            }
            g_old.to_multiset_ensures();
            assert(g@.to_multiset() =~= g_old.to_multiset().remove(p));
        }
        sol.solution_per_table.set(s, SlotAssignment { table_day_id: tid, people: g });
        let ghost removed_old = removed@;
        removed.push(p);
        proof {
            assert(sol@ =~= before.update(s as int, (before[s as int].0, g@)));
            lemma_seated_update_multiset(before, s as int, g@);
            let s_before = seated_ids(before).to_multiset();
            let s_after = seated_ids(sol@).to_multiset();
            g_old.to_multiset_ensures();
            assert(g_old.contains(p));
            assert(g_old.to_multiset().count(p) > 0);
            assert(removed@ =~= removed_old.push(p));
            removed_old.to_multiset_ensures();
            assert(removed@.to_multiset() =~= removed_old.to_multiset().insert(p));
            assert forall|x: usize| s_after.add(removed@.to_multiset()).count(x) == seated_ids(
                sol0,
            ).to_multiset().count(x) by {
                assert(s_after.add(g_old.to_multiset()).count(x) == s_before.add(
                    g@.to_multiset(),
                ).count(x));
                assert(g@.to_multiset().count(x) == g_old.to_multiset().remove(p).count(x));
                assert(s_before.add(removed_old.to_multiset()).count(x) == seated_ids(
                    sol0,
                ).to_multiset().count(x));
            }
            assert(s_after.add(removed@.to_multiset()) =~= seated_ids(sol0).to_multiset());
            seated_ids(sol@).to_multiset_ensures();
            seated_ids(sol0).to_multiset_ensures();
            removed@.to_multiset_ensures();
            assert(seated_ids(sol@).len() + removed@.len() == seated_ids(sol0).len());
            assert(working_wf(problem, sol@)) by {
                assert forall|i2: int, j: int|
                    0 <= i2 < sol@.len() && 0 <= j < sol@[i2].1.len() implies has_person(
                    problem.people@,
                    #[trigger] sol@[i2].1[j],
                ) by {
                    if i2 == s as int {
                        g_old.remove_ensures(idx as int);
                        assert(g@.contains(g@[j]));
                        assert(g_old.contains(g@[j]));
                        let l = choose|l: int| 0 <= l < g_old.len() && g_old[l] == g@[j];
                        assert(before[s as int].1[l] == g@[j]);
                    } else {
                        assert(sol@[i2] == before[i2]);
                    }
                }
            }
            assert(nonempty@ == nonempty_indices(before));
            assert(t as int == mix_output(st_before) as int % (nonempty_indices(
                before,
            ).len() as int));
            assert(s == nonempty_indices(before)[t as int]);
            assert(idx as int == mix_output(mix_state(st_before)) as int % (before[
                s as int].1.len() as int));
            assert(g@ == before[s as int].1.remove(idx as int));
            assert(p == before[s as int].1[idx as int]);
            assert(tid == before[s as int].0);
            assert(rng.state == mix_state(mix_state(st_before)));
            assert(sol@ == destroy_step(before, st_before).0);
            assert(p == destroy_step(before, st_before).1);
            assert(rng.state == destroy_step(before, st_before).2);
            assert(destroyed_upto(sol0, state0, step + 1).0 == sol@);
            assert(destroyed_upto(sol0, state0, step + 1).1 == removed@);
            assert(destroyed_upto(sol0, state0, step + 1).2 == rng.state);
        }
        step = step + 1;
    }
    removed
}

/// One full destroy/repair iteration as a function of the working solution
/// and the generator state alone: the destroy size is drawn, the picks are
/// made, the removed people are replaced at their best positions, and the
/// candidate is kept only on strict improvement.
pub open spec fn improve_step(
    p: ProblemDescription,
    sol: Seq<(usize, Seq<usize>)>,
    state: u64,
) -> (Seq<(usize, Seq<usize>)>, u64, bool) {
    let pc = p.people@.len() as int;
    let a = pc / 20;
    let b = if pc < 5 {
        pc
    } else {
        5
    };
    let upper = if a > b {
        a
    } else {
        b
    };
    let k = 2 + mix_output(state) as int % (upper - 2);
    let state2 = mix_state(state);
    let destroyed = destroyed_upto(sol, state2, k);
    match placed_all(p, destroyed.0, destroyed.1) {
        Option::None => (sol, destroyed.2, false),
        Option::Some(candidate) => if solution_value_millis(p, candidate) > solution_value_millis(
            p,
            sol,
        ) {
            (candidate, destroyed.2, true)
        } else {
            (sol, destroyed.2, false)
        },
    }
}

/// One destroy/repair pass: clones the working solution, removes a random
/// destroy set, reinserts each removed person at their best slot and
/// position, and keeps the candidate only when it strictly improves the
/// objective. Accepted values therefore never decrease, and the whole pass
/// is a function of the problem, the incoming solution, and the generator
/// state.
pub fn improve_iteration(
    calc: &ObjectiveValueCalculator,
    cache: &mut InsertionCache,
    rng: &mut SolverRng,
    sol: &mut Solution,
) -> (accepted: bool)
    requires
        calc.wf(),
        old(cache).wf(),
        old(cache).problem@ == calc.problem@,
        working_wf(calc.problem@, old(sol)@),
        covers_people(calc.problem@, old(sol)@),
        calc.problem@.people@.len() >= 3,
    ensures
        final(cache).wf(),
        final(cache).problem@ == calc.problem@,
        working_wf(calc.problem@, final(sol)@),
        covers_people(calc.problem@, final(sol)@),
        solution_value_millis(calc.problem@, final(sol)@) >= solution_value_millis(
            calc.problem@,
            old(sol)@,
        ),
        accepted ==> solution_value_millis(calc.problem@, final(sol)@) > solution_value_millis(
            calc.problem@,
            old(sol)@,
        ),
        !accepted ==> final(sol)@ == old(sol)@,
        final(sol)@ == improve_step(calc.problem@, old(sol)@, old(rng).state).0,
        final(rng).state == improve_step(calc.problem@, old(sol)@, old(rng).state).1,
        accepted == improve_step(calc.problem@, old(sol)@, old(rng).state).2,
{
    broadcast use vstd::multiset::group_multiset_axioms;

    let ghost problem = calc.problem@;
    let ghost state0 = rng.state;
    proof {
        lemma_working_ids_ok(problem, sol@);
    }
    let current_cost = calc.solution_value(sol);
    let mut candidate = clone_solution(sol);
    let pc = calc.people_stats.len();
    proof {
        assert(pc == problem.people@.len());
    }
    let a = pc / 20;
    let b = if pc < 5 {
        pc
    } else {
        5
    };
    let upper = if a > b {
        a
    } else {
        b
    };
    let k = 2 + rng.below((upper - 2) as u64) as usize;
    proof {
        lemma_covers_len(problem, sol@);
        assert(upper <= pc);
        assert(k <= seated_ids(candidate@).len());
        assert(k as int == 2 + mix_output(state0) as int % (upper as int - 2));
        assert(rng.state == mix_state(state0));
    }
    let ghost state2 = rng.state;
    let removed = remove_random_people(rng, &mut candidate, k, Ghost(problem));
    let ghost after_destroy = candidate@;
    proof {
        assert(after_destroy == destroyed_upto(old(sol)@, state2, k as int).0);
        assert(removed@ == destroyed_upto(old(sol)@, state2, k as int).1);
        assert(rng.state == destroyed_upto(old(sol)@, state2, k as int).2);
    }
    let res = insert_into_best_positions(calc, cache, &mut candidate, &removed);
    match res {
        Result::Err(_) => {
            proof {
                lemma_seated_len(old(sol)@);
                assert(seated_ids(old(sol)@).len() <= MAX_PEOPLE_FOR_TABLE * old(sol)@.len());
                assert(seated_ids(after_destroy).len() + removed@.len() == seated_ids(
                    old(sol)@,
                ).len());
                assert(false);
            }
            false
        },
        Result::Ok(()) => {
            proof {
                let s_old = seated_ids(old(sol)@).to_multiset();
                let s_new = seated_ids(candidate@).to_multiset();
                assert(s_new == seated_ids(after_destroy).to_multiset().add(
                    removed@.to_multiset(),
                ));
                assert(s_new == s_old);
                lemma_same_multiset_covers(seated_ids(candidate@), seated_ids(old(sol)@));
                assert(covers_people(problem, candidate@));
                lemma_working_ids_ok(problem, candidate@);
                assert(placed_all(problem, after_destroy, removed@) == Option::Some(candidate@));
            }
            let new_cost = calc.solution_value(&candidate);
            if new_cost > current_cost {
                *sol = candidate;
                proof {
                    assert(improve_step(problem, old(sol)@, state0).0 == sol@);
                    assert(improve_step(problem, old(sol)@, state0).1 == rng.state);
                    assert(improve_step(problem, old(sol)@, state0).2 == true);
                }
                true
            } else {
                proof {
                    assert(improve_step(problem, old(sol)@, state0).0 == sol@);
                    assert(improve_step(problem, old(sol)@, state0).1 == rng.state);
                    assert(improve_step(problem, old(sol)@, state0).2 == false);
                }
                false
            }
        },
    }
}

/// Solves one problem instance: greedy construction, then destroy/repair
/// until 200 consecutive iterations bring no improvement or the wall-clock
/// budget runs out. Fails exactly when the people cannot fit in the total
/// seating capacity; any returned solution is complete: it lists exactly the
/// problem's slots, seats every person exactly once, and respects the
/// capacity limit.
pub fn solve(problem: &ProblemDescription, time_limit_millis: i64, seed: u64) -> (r: Result<
    AlgorithmResults,
    SolveError,
>)
    requires
        problem_wf(*problem),
    ensures
        (r is Err) <==> problem.people@.len() > MAX_PEOPLE_FOR_TABLE * problem.tables@.len(),
        match r {
            Result::Ok(res) => solution_complete(*problem, res.solution@)
                && solution_value_millis(*problem, res.solution@) >= solution_value_millis(
                *problem,
                placed_all(*problem, empty_start(*problem), person_ids(problem.people@)).unwrap(),
            ),
            Result::Err(e) => e == SolveError::Infeasible,
        },
{
    broadcast use vstd::multiset::group_multiset_axioms;

    let start = now_millis();
    let calc = ObjectiveValueCalculator::new(problem);
    let mut cache = InsertionCache::new(&calc);
    let mut rng = SolverRng::new(seed);
    let mut sol = empty_solution(problem);
    let all_people = crate::problem::ids_of_people(&problem.people);
    proof {
        assert forall|i: int| 0 <= i < all_people@.len() implies has_person(
            problem.people@,
            #[trigger] all_people@[i],
        ) by {
            assert(all_people@[i] == problem.people@[i].id);
        }
        assert(seated_ids(sol@).len() == 0);
    }
    let ghost base = sol@;
    let res = insert_into_best_positions(&calc, &mut cache, &mut sol, &all_people);
    match res {
        Result::Err(e) => {
            proof {
                assert(all_people@.len() == problem.people@.len());
                assert(sol@.len() == problem.tables@.len());
            }
            return Result::Err(e);
        },
        Result::Ok(()) => {},
    }
    proof {
        lemma_person_ids_no_duplicates(*problem);
        assert(all_people@ == person_ids(problem.people@));
        seated_ids(base).to_multiset_ensures();
        assert forall|x: usize|
            seated_ids(sol@).to_multiset().count(x) == person_ids(
                problem.people@,
            ).to_multiset().count(x) by {
            assert(!seated_ids(base).contains(x));
            assert(seated_ids(base).to_multiset().count(x) == 0);
            assert(seated_ids(sol@).to_multiset().count(x) == seated_ids(
                base,
            ).to_multiset().count(x) + all_people@.to_multiset().count(x));
        }
        assert(seated_ids(sol@).to_multiset() =~= person_ids(problem.people@).to_multiset());
        lemma_same_multiset_covers(seated_ids(sol@), person_ids(problem.people@));
        assert(covers_people(*problem, sol@));
        assert(sol@ == placed_all(
            *problem,
            empty_start(*problem),
            person_ids(problem.people@),
        ).unwrap());
    }
    let ghost v0 = solution_value_millis(*problem, sol@);
    let mut iteration: u64 = 0;
    let mut last_improved: u64 = 0;
    if problem.people.len() >= 3 {
        proof {
            lemma_working_ids_ok(*problem, sol@);
        }
        let mut cur = calc.solution_value(&sol);
        loop
            invariant_except_break
                iteration - last_improved <= 200,
            invariant
                calc.wf(),
                calc.problem@ == *problem,
                cache.wf(),
                cache.problem@ == *problem,
                problem_wf(*problem),
                working_wf(*problem, sol@),
                covers_people(*problem, sol@),
                problem.people@.len() >= 3,
                cur as int == solution_value_millis(*problem, sol@),
                -solution_value_limit() <= cur as int <= solution_value_limit(),
                last_improved <= iteration,
                solution_value_millis(*problem, sol@) >= v0,
            ensures
                working_wf(*problem, sol@),
                covers_people(*problem, sol@),
                solution_value_millis(*problem, sol@) >= v0,
            decreases solution_value_limit() - cur, 200 - (iteration - last_improved),
        {
            if iteration >= 0xFFFF_FFFF_FFFF_FFF0u64 {
                break;
            }
            iteration = iteration + 1;
            if iteration - last_improved > 200 {
                break;
            }
            let now = now_millis();
            if (now as i128) - (start as i128) > (time_limit_millis as i128) {
                break;
            }
            let accepted = improve_iteration(&calc, &mut cache, &mut rng, &mut sol);
            if accepted {
                last_improved = iteration;
                proof {
                    lemma_working_ids_ok(*problem, sol@);
                }
                cur = calc.solution_value(&sol);
            }
        }
    }
    let now2 = now_millis();
    let e128: i128 = now2 as i128 - start as i128;
    let elapsed_millis: i64 = if e128 > i64::MAX as i128 {
        i64::MAX
    } else if e128 < i64::MIN as i128 {
        i64::MIN
    } else {
        e128 as i64
    };
    Result::Ok(AlgorithmResults { solution: sol, no_of_iterations: iteration, elapsed_millis })
}

/// The initial working solution: one empty occupant list per problem slot.
pub open spec fn empty_start(p: ProblemDescription) -> Seq<(usize, Seq<usize>)> {
    Seq::new(p.tables@.len(), |i: int| (p.tables@[i].id, Seq::<usize>::empty()))
}

/// The improvement loop as a function of the state it starts from: one
/// destroy/repair pass per iteration, until 200 consecutive iterations bring
/// no improvement or the iteration cap is reached. Returns the final working
/// solution and the iteration count.
pub open spec fn run_from(
    p: ProblemDescription,
    sol: Seq<(usize, Seq<usize>)>,
    state: u64,
    iteration: u64,
    last_improved: u64,
) -> (Seq<(usize, Seq<usize>)>, u64)
    decreases 0xFFFF_FFFF_FFFF_FFF0u64 - iteration,
{
    if iteration >= 0xFFFF_FFFF_FFFF_FFF0u64 {
        (sol, iteration)
    } else {
        let it = (iteration + 1) as u64;
        if it - last_improved > 200 {
            (sol, it)
        } else {
            let stepped = improve_step(p, sol, state);
            if stepped.2 {
                run_from(p, stepped.0, stepped.1, it, it)
            } else {
                run_from(p, stepped.0, stepped.1, it, last_improved)
            }
        }
    }
}

/// The deterministic solver's outcome as a function of the problem and the
/// seed alone (meaningful when the instance is feasible): greedy
/// construction, then the improvement loop when there are at least three
/// people.
pub open spec fn run_result(p: ProblemDescription, seed: u64) -> (Seq<(usize, Seq<usize>)>, u64) {
    let init = placed_all(p, empty_start(p), person_ids(p.people@)).unwrap();
    if p.people@.len() >= 3 {
        run_from(p, init, seed, 0, 0)
    } else {
        (init, 0)
    }
}

/// Determinism under fixed randomness: the deterministic solver's outcome is
/// one mathematical function of the problem and the seed, so two runs with
/// equal inputs return equal solutions and equal iteration counts.
pub proof fn lemma_fixed_seed_determinism(
    p: ProblemDescription,
    seed: u64,
    a: (Seq<(usize, Seq<usize>)>, u64),
    b: (Seq<(usize, Seq<usize>)>, u64),
)
    requires
        a == run_result(p, seed),
        b == run_result(p, seed),
    ensures
        a.0 == b.0,
        a.1 == b.1,
{
}

/// `solve` without the wall clock: the run is a pure function of the problem
/// and the seed, so two runs with equal inputs give equal results. The loop
/// ends on the no-improvement counter (or the iteration cap) alone.
pub fn solve_deterministic(problem: &ProblemDescription, seed: u64) -> (r: Result<
    AlgorithmResults,
    SolveError,
>)
    requires
        problem_wf(*problem),
    ensures
        (r is Err) <==> problem.people@.len() > MAX_PEOPLE_FOR_TABLE * problem.tables@.len(),
        match r {
            Result::Ok(res) => solution_complete(*problem, res.solution@) && res.solution@
                == run_result(*problem, seed).0 && res.no_of_iterations == run_result(
                *problem,
                seed,
            ).1 && res.elapsed_millis == 0 && solution_value_millis(*problem, res.solution@)
                >= solution_value_millis(
                *problem,
                placed_all(*problem, empty_start(*problem), person_ids(problem.people@)).unwrap(),
            ),
            Result::Err(e) => e == SolveError::Infeasible,
        },
{
    broadcast use vstd::multiset::group_multiset_axioms;

    let calc = ObjectiveValueCalculator::new(problem);
    let mut cache = InsertionCache::new(&calc);
    let mut rng = SolverRng::new(seed);
    let mut sol = empty_solution(problem);
    let all_people = crate::problem::ids_of_people(&problem.people);
    proof {
        assert forall|i: int| 0 <= i < all_people@.len() implies has_person(
            problem.people@,
            #[trigger] all_people@[i],
        ) by {
            assert(all_people@[i] == problem.people@[i].id);
        }
        assert(seated_ids(sol@).len() == 0);
    }
    let ghost base = sol@;
    let res = insert_into_best_positions(&calc, &mut cache, &mut sol, &all_people);
    match res {
        Result::Err(e) => {
            proof {
                assert(all_people@.len() == problem.people@.len());
                assert(sol@.len() == problem.tables@.len());
            }
            return Result::Err(e);
        },
        Result::Ok(()) => {},
    }
    proof {
        lemma_person_ids_no_duplicates(*problem);
        assert(all_people@ == person_ids(problem.people@));
        seated_ids(base).to_multiset_ensures();
        assert forall|x: usize|
            seated_ids(sol@).to_multiset().count(x) == person_ids(
                problem.people@,
            ).to_multiset().count(x) by {
            assert(!seated_ids(base).contains(x));
            assert(seated_ids(base).to_multiset().count(x) == 0);
            assert(seated_ids(sol@).to_multiset().count(x) == seated_ids(
                base,
            ).to_multiset().count(x) + all_people@.to_multiset().count(x));
        }
        assert(seated_ids(sol@).to_multiset() =~= person_ids(problem.people@).to_multiset());
        lemma_same_multiset_covers(seated_ids(sol@), person_ids(problem.people@));
        assert(covers_people(*problem, sol@));
        assert(sol@ == placed_all(
            *problem,
            empty_start(*problem),
            person_ids(problem.people@),
        ).unwrap());
    }
    let ghost init = sol@;
    let ghost v0 = solution_value_millis(*problem, sol@);
    let mut iteration: u64 = 0;
    let mut last_improved: u64 = 0;
    if problem.people.len() >= 3 {
        proof {
            lemma_working_ids_ok(*problem, sol@);
            assert(rng.state == seed);
        }
        let mut cur = calc.solution_value(&sol);
        loop
            invariant_except_break
                iteration - last_improved <= 200,
                run_from(*problem, sol@, rng.state, iteration, last_improved) == run_from(
                    *problem,
                    init,
                    seed,
                    0,
                    0,
                ),
            invariant
                calc.wf(),
                calc.problem@ == *problem,
                cache.wf(),
                cache.problem@ == *problem,
                problem_wf(*problem),
                working_wf(*problem, sol@),
                covers_people(*problem, sol@),
                problem.people@.len() >= 3,
                cur as int == solution_value_millis(*problem, sol@),
                -solution_value_limit() <= cur as int <= solution_value_limit(),
                last_improved <= iteration,
                solution_value_millis(*problem, sol@) >= v0,
            ensures
                working_wf(*problem, sol@),
                covers_people(*problem, sol@),
                solution_value_millis(*problem, sol@) >= v0,
                sol@ == run_from(*problem, init, seed, 0, 0).0,
                iteration == run_from(*problem, init, seed, 0, 0).1,
            decreases solution_value_limit() - cur, 200 - (iteration - last_improved),
        {
            if iteration >= 0xFFFF_FFFF_FFFF_FFF0u64 {
                proof {
                    assert(run_from(*problem, sol@, rng.state, iteration, last_improved) == (
                        sol@,
                        iteration,
                    ));
                }
                break;
            }
            let ghost head_iteration = iteration;
            let ghost head_last = last_improved;
            let ghost head_state = rng.state;
            let ghost head_sol = sol@;
            iteration = iteration + 1;
            if iteration - last_improved > 200 {
                proof {
                    assert(run_from(*problem, head_sol, head_state, head_iteration, last_improved)
                        == (sol@, iteration));
                }
                break;
            }
            let accepted = improve_iteration(&calc, &mut cache, &mut rng, &mut sol);
            if accepted {
                last_improved = iteration;
                proof {
                    lemma_working_ids_ok(*problem, sol@);
                }
                cur = calc.solution_value(&sol);
            }
            proof {
                let stepped = improve_step(*problem, head_sol, head_state);
                assert(stepped.0 == sol@);
                assert(stepped.1 == rng.state);
                assert(stepped.2 == accepted);
                assert(head_iteration < 0xFFFF_FFFF_FFFF_FFF0u64);
                assert(iteration - head_last <= 200);
                assert(run_from(*problem, head_sol, head_state, head_iteration, head_last) == (
                if stepped.2 {
                    run_from(*problem, stepped.0, stepped.1, iteration, iteration)
                } else {
                    run_from(*problem, stepped.0, stepped.1, iteration, head_last)
                }));
                assert(run_from(*problem, sol@, rng.state, iteration, last_improved) == run_from(
                    *problem,
                    head_sol,
                    head_state,
                    head_iteration,
                    head_last,
                ));
            }
        }
    } else {
        proof {
            assert(run_result(*problem, seed) == (init, 0u64));
        }
    }
    Result::Ok(AlgorithmResults { solution: sol, no_of_iterations: iteration, elapsed_millis: 0 })
}

/// A sequence with the same multiset as a duplicate-free sequence covers the
/// same set, without duplicates.
proof fn lemma_same_multiset_covers(a: Seq<usize>, b: Seq<usize>)
    requires
        a.to_multiset() == b.to_multiset(),
        b.no_duplicates(),
    ensures
        a.no_duplicates(),
        a.to_set() == b.to_set(),
{
    broadcast use vstd::multiset::group_multiset_axioms;

    a.to_multiset_ensures();
    b.to_multiset_ensures();
    b.lemma_multiset_has_no_duplicates();
    a.lemma_multiset_has_no_duplicates_conv();
    assert forall|x: usize| a.to_set().contains(x) <==> b.to_set().contains(x) by {
        assert(a.to_set().contains(x) <==> a.contains(x));
        assert(b.to_set().contains(x) <==> b.contains(x));
        assert(a.contains(x) <==> a.to_multiset().count(x) > 0);
        assert(b.contains(x) <==> b.to_multiset().count(x) > 0);
    }
    assert(a.to_set() =~= b.to_set());
}

} // verus!
