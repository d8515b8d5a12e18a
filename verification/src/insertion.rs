//! Best-position insertion: the marginal value of adding one person to a
//! table-day group, searching every insertion index (adjacency depends on the
//! position, so each index may score differently), with ties broken toward
//! the earliest index.

use vstd::prelude::*;

use crate::objective::{table_value_limit, table_value_millis, ObjectiveValueCalculator};
use crate::problem::{has_person, has_table, ProblemDescription, MAX_PEOPLE_FOR_TABLE};

verus! {

/// Marginal value of inserting `pid` at index `i` of group `g`.
pub open spec fn insertion_cand(
    p: ProblemDescription,
    table_day_id: usize,
    g: Seq<usize>,
    pid: usize,
    i: int,
) -> int {
    table_value_millis(p, table_day_id, g.insert(i, pid)) - table_value_millis(p, table_day_id, g)
}

/// Best marginal value among insertion indices `0..n` (`n >= 1`).
pub open spec fn best_val_upto(
    p: ProblemDescription,
    table_day_id: usize,
    g: Seq<usize>,
    pid: usize,
    n: int,
) -> int
    decreases n,
{
    if n <= 1 {
        insertion_cand(p, table_day_id, g, pid, 0)
    } else {
        let prev = best_val_upto(p, table_day_id, g, pid, n - 1);
        let c = insertion_cand(p, table_day_id, g, pid, n - 1);
        if c > prev {
            c
        } else {
            prev
        }
    }
}

/// Earliest index among `0..n` achieving `best_val_upto` (`n >= 1`).
pub open spec fn best_idx_upto(
    p: ProblemDescription,
    table_day_id: usize,
    g: Seq<usize>,
    pid: usize,
    n: int,
) -> int
    decreases n,
{
    if n <= 1 {
        0
    } else {
        let prev = best_val_upto(p, table_day_id, g, pid, n - 1);
        let c = insertion_cand(p, table_day_id, g, pid, n - 1);
        if c > prev {
            n - 1
        } else {
            best_idx_upto(p, table_day_id, g, pid, n - 1)
        }
    }
}

/// Best marginal value of inserting `pid` into the group `g` at slot
/// `table_day_id`: `None` when the group is at capacity; for an empty group,
/// the absolute value of seating `pid` alone.
pub open spec fn insertion_value_spec(
    p: ProblemDescription,
    table_day_id: usize,
    g: Seq<usize>,
    pid: usize,
) -> Option<int> {
    if g.len() == 0 {
        Option::Some(table_value_millis(p, table_day_id, seq![pid]))
    } else if g.len() < MAX_PEOPLE_FOR_TABLE {
        Option::Some(best_val_upto(p, table_day_id, g, pid, g.len() as int))
    } else {
        Option::None
    }
}

/// The group that the best insertion produces (meaningful when `g` is under
/// capacity).
pub open spec fn inserted_group_spec(
    p: ProblemDescription,
    table_day_id: usize,
    g: Seq<usize>,
    pid: usize,
) -> Seq<usize> {
    if g.len() == 0 {
        seq![pid]
    } else {
        g.insert(best_idx_upto(p, table_day_id, g, pid, g.len() as int), pid)
    }
}

/// The best index is in range and achieves the best value, which no
/// candidate exceeds.
pub proof fn lemma_best_props(
    p: ProblemDescription,
    table_day_id: usize,
    g: Seq<usize>,
    pid: usize,
    n: int,
)
    requires
        1 <= n,
    ensures
        0 <= best_idx_upto(p, table_day_id, g, pid, n) < n,
        insertion_cand(p, table_day_id, g, pid, best_idx_upto(p, table_day_id, g, pid, n))
            == best_val_upto(p, table_day_id, g, pid, n),
        forall|i: int|
            0 <= i < n ==> insertion_cand(p, table_day_id, g, pid, i) <= best_val_upto(
                p,
                table_day_id,
                g,
                pid,
                n,
            ),
    decreases n,
{
    if n > 1 {
        lemma_best_props(p, table_day_id, g, pid, n - 1);
    }
}

/// Inserting in the middle adds the element to the multiset of the group.
pub proof fn lemma_insert_to_multiset(g: Seq<usize>, i: int, x: usize)
    requires
        0 <= i <= g.len(),
    ensures
        g.insert(i, x).to_multiset() == g.to_multiset().insert(x),
{
    broadcast use vstd::seq_lib::group_to_multiset_ensures;

    let s1 = g.subrange(0, i);
    let s2 = g.subrange(i, g.len() as int);
    assert(g =~= s1 + s2);
    vstd::seq_lib::lemma_multiset_commutative(s1.push(x), s2);
    vstd::seq_lib::lemma_multiset_commutative(s1, s2);
    assert(s1.push(x).to_multiset() =~= s1.to_multiset().insert(x));
    assert(g.insert(i, x).to_multiset() =~= s1.to_multiset().insert(x).add(s2.to_multiset()));
    assert(s1.to_multiset().insert(x).add(s2.to_multiset()) =~= s1.to_multiset().add(
        s2.to_multiset(),
    ).insert(x));
}

/// Copies `v` with `x` inserted at index `i`.
fn vec_insert_copy(v: &Vec<usize>, i: usize, x: usize) -> (r: Vec<usize>)
    requires
        i <= v@.len(),
        v@.len() < usize::MAX,
    ensures
        r@ == v@.insert(i as int, x),
{
    let mut r: Vec<usize> = Vec::new();
    let mut k: usize = 0;
    while k < v.len()
        invariant
            0 <= k <= v@.len(),
            r@.len() == k,
            forall|j: int| 0 <= j < k ==> r@[j] == v@[j],
        decreases v@.len() - k,
    {
        r.push(v[k]);
        k = k + 1;
    }
    proof {
        assert(r@ =~= v@);
    }
    r.insert(i, x);
    r
}

/// Searches every insertion index of `people` for the one that yields the
/// highest marginal `table_value` gain (earliest index wins ties); `None`
/// when the table is at capacity. For an empty table the value is the
/// absolute value of seating the person alone.
pub fn insert_into_best_table_position(
    calc: &ObjectiveValueCalculator,
    table_day_id: usize,
    people: &Vec<usize>,
    person_id: usize,
) -> (r: Option<(Vec<usize>, i64)>)
    requires
        calc.wf(),
        has_table(calc.problem@.tables@, table_day_id),
        forall|i: int|
            0 <= i < people@.len() ==> has_person(calc.problem@.people@, #[trigger] people@[i]),
        has_person(calc.problem@.people@, person_id),
        people@.len() <= MAX_PEOPLE_FOR_TABLE,
    ensures
        match r {
            Option::None => {
                &&& people@.len() >= MAX_PEOPLE_FOR_TABLE
                &&& insertion_value_spec(calc.problem@, table_day_id, people@, person_id) is None
            },
            Option::Some((v, val)) => {
                &&& people@.len() < MAX_PEOPLE_FOR_TABLE
                &&& insertion_value_spec(calc.problem@, table_day_id, people@, person_id)
                    == Option::Some(val as int)
                &&& v@ == inserted_group_spec(calc.problem@, table_day_id, people@, person_id)
                &&& v@.len() == people@.len() + 1
                &&& v@.to_multiset() == people@.to_multiset().insert(person_id)
            },
        },
{
    let ghost problem = calc.problem@;
    let n = people.len();
    if n == 0 {
        let mut v: Vec<usize> = Vec::new();
        v.push(person_id);
        proof {
            assert(v@ =~= seq![person_id]);
            broadcast use vstd::seq_lib::group_to_multiset_ensures;

            assert(v@.to_multiset() =~= people@.to_multiset().insert(person_id));
        }
        let val = calc.table_value(table_day_id, &v);
        Option::Some((v, val))
    } else if n < MAX_PEOPLE_FOR_TABLE {
        let current = calc.table_value(table_day_id, people);
        let mut best_vec: Vec<usize> = Vec::new();
        let mut best_val: i64 = 0;
        let mut started = false;
        let mut i: usize = 0;
        while i < n
            invariant
                calc.wf(),
                problem == calc.problem@,
                has_table(problem.tables@, table_day_id),
                forall|j: int|
                    0 <= j < people@.len() ==> has_person(problem.people@, #[trigger] people@[j]),
                has_person(problem.people@, person_id),
                1 <= n == people@.len() < MAX_PEOPLE_FOR_TABLE,
                current as int == table_value_millis(problem, table_day_id, people@),
                -table_value_limit() <= current as int <= table_value_limit(),
                0 <= i <= n,
                started == (i > 0),
                started ==> best_val as int == best_val_upto(
                    problem,
                    table_day_id,
                    people@,
                    person_id,
                    i as int,
                ),
                started ==> best_vec@ == people@.insert(
                    best_idx_upto(problem, table_day_id, people@, person_id, i as int),
                    person_id,
                ),
            decreases n - i,
        {
            let cand_vec = vec_insert_copy(people, i, person_id);
            proof {
                assert forall|j: int| 0 <= j < cand_vec@.len() implies has_person(
                    problem.people@,
                    #[trigger] cand_vec@[j],
                ) by {
                    people@.insert_ensures(i as int, person_id);
                    if j < i {
                        assert(cand_vec@[j] == people@[j]);
                    } else if j == i {
                        assert(cand_vec@[j] == person_id);
                    } else {
                        assert(cand_vec@[j] == people@[j - 1]);
                    }
                }
            }
            let cand_val_raw = calc.table_value(table_day_id, &cand_vec);
            let val = cand_val_raw - current;
            proof {
                assert(val as int == insertion_cand(
                    problem,
                    table_day_id,
                    people@,
                    person_id,
                    i as int,
                ));
            }
            if !started || val > best_val {
                best_vec = cand_vec;
                best_val = val;
            }
            started = true;
            i = i + 1;
        }
        proof {
            lemma_best_props(problem, table_day_id, people@, person_id, n as int);
            people@.insert_ensures(
                best_idx_upto(problem, table_day_id, people@, person_id, n as int),
                person_id,
            );
            lemma_insert_to_multiset(
                people@,
                best_idx_upto(problem, table_day_id, people@, person_id, n as int),
                person_id,
            );
        }
        Option::Some((best_vec, best_val))
    } else {
        Option::None
    }
}

} // verus!
